//! The query entry point: build an ephemeral index over the current item
//! list, answer one keyword query against it, and rehydrate each ranked
//! match back into a full item record.

use vstd::prelude::*;

use crate::fold::fold_of;
use crate::index::build_index;
use crate::items::App;
use crate::items::SearchResultItem;
use crate::occur::is_hit;
use crate::query::query;
use crate::query::query_post;

verus! {

/// How many ranked results one query returns at most.
pub const RESULT_LIMIT: usize = 5;

/// The case-folded names of an item list, in list order.
pub open spec fn folded_names(apps: Seq<App>) -> Seq<Seq<char>> {
    apps.map_values(|a: App| fold_of(a.name@))
}

/// The first position whose item bears `name`, or the list's length when
/// none does.
pub open spec fn first_with_name(apps: Seq<App>, name: Seq<char>) -> int
    decreases apps.len(),
{
    if apps.len() == 0 {
        0
    } else if apps[0].name@ == name {
        0
    } else {
        1 + first_with_name(apps.drop_first(), name)
    }
}

/// `first_with_name` is in range, nothing before it matches, and it matches
/// when it is in range.
pub proof fn lemma_first_with_name(apps: Seq<App>, name: Seq<char>)
    ensures
        0 <= first_with_name(apps, name) <= apps.len(),
        forall|j: int| 0 <= j < first_with_name(apps, name) ==> (#[trigger] apps[j]).name@ != name,
        first_with_name(apps, name) < apps.len() ==> apps[first_with_name(apps, name)].name@
            == name,
    decreases apps.len(),
{
    if apps.len() > 0 && apps[0].name@ != name {
        let rest = apps.drop_first();
        lemma_first_with_name(rest, name);
        let f = first_with_name(apps, name);
        assert forall|j: int| 0 <= j < f implies (#[trigger] apps[j]).name@ != name by {
            if j > 0 {
                assert(rest[j - 1] == apps[j]);
            }
        }
        if f < apps.len() {
            assert(rest[f - 1] == apps[f]);
        }
    }
}

/// A copy of an item record.
fn clone_app(a: &App) -> (r: App)
    ensures
        r == *a,
{
    let name = a.name.clone();
    let icon = a.icon.clone();
    let path = a.path.clone();
    App { name, icon, path }
}

/// Recover the full item record behind a matched name: the first item of the
/// original list bearing that name, or nothing when no item does. With
/// duplicate names the first match wins, by list order.
pub fn rehydrate(apps: &Vec<App>, name: &String) -> (r: Option<App>)
    ensures
        ({
            let f = first_with_name(apps@, name@);
            match r {
                Some(a) => f < apps@.len() && a == apps@[f],
                None => f == apps@.len(),
            }
        }),
{
    proof {
        lemma_first_with_name(apps@, name@);
    }
    let ghost f = first_with_name(apps@, name@);
    let n = apps.len();
    for j in 0..n
        invariant
            n == apps@.len(),
            f == first_with_name(apps@, name@),
            forall|m: int| 0 <= m < j ==> (#[trigger] apps@[m]).name@ != name@,
            0 <= f <= apps@.len(),
            forall|m: int| 0 <= m < f ==> (#[trigger] apps@[m]).name@ != name@,
            f < apps@.len() ==> apps@[f].name@ == name@,
    {
        if apps[j].name == *name {
            proof {
                if f < j as int {
                    assert(apps@[f].name@ != name@);
                    assert(false);
                }
                if f > j as int {
                    assert(apps@[j as int].name@ != name@);
                    assert(false);
                }
            }
            return Some(clone_app(&apps[j]));
        }
    }
    proof {
        if f < apps@.len() {
            assert(apps@[f].name@ != name@);
            assert(false);
        }
    }
    None
}

/// One self-contained search: build an index over the items handed in, look
/// the folded keyword up as one exact token, rank the hits by term frequency
/// with first-seen tie-break, truncate to `RESULT_LIMIT`, and rehydrate each
/// ranked item into a tagged result. The ranked pairs obey `query_post`, and
/// each result is the first item of the list bearing the matched item's
/// name, wrapped in its variant tag.
pub fn search(apps: &Vec<App>, keyword: &str) -> (results: Vec<SearchResultItem>)
    ensures
        exists|pairs: Seq<(usize, usize)>|
            {
                &&& #[trigger] query_post(
                    folded_names(apps@),
                    fold_of(keyword@),
                    RESULT_LIMIT as int,
                    pairs,
                )
                &&& results@.len() == pairs.len()
                &&& forall|k: int|
                    0 <= k < pairs.len() ==> results@[k] == SearchResultItem::App(
                        apps@[first_with_name(apps@, apps@[(#[trigger] pairs[k]).0 as int].name@)],
                    )
            },
{
    let index = build_index(apps);
    proof {
        assert(index.names@ =~= folded_names(apps@));
    }
    let pairs = query(&index, keyword, RESULT_LIMIT);
    let ghost names = folded_names(apps@);
    let ghost kw = fold_of(keyword@);
    let mut results: Vec<SearchResultItem> = Vec::new();
    let np = pairs.len();
    for k in 0..np
        invariant
            np == pairs@.len(),
            query_post(names, kw, RESULT_LIMIT as int, pairs@),
            names == folded_names(apps@),
            kw == fold_of(keyword@),
            names.len() == apps@.len(),
            results@.len() == k,
            forall|m: int|
                0 <= m < k ==> results@[m] == SearchResultItem::App(
                    apps@[first_with_name(apps@, apps@[(#[trigger] pairs@[m]).0 as int].name@)],
                ),
    {
        let idx = pairs[k].0;
        proof {
            assert(is_hit(names, kw, (#[trigger] pairs@[k as int]).0 as int));
            assert((idx as int) < apps@.len());
        }
        match rehydrate(apps, &apps[idx].name) {
            Some(app) => {
                results.push(SearchResultItem::App(app));
            },
            None => {
                // a matched item's own record bears the matched name, so the
                // lookup cannot come back empty; a miss would be dropped here
                proof {
                    lemma_first_with_name(apps@, apps@[idx as int].name@);
                    assert(apps@[idx as int].name@ == apps@[idx as int].name@);
                    assert(false);
                }
            },
        }
    }
    proof {
        assert(query_post(names, kw, RESULT_LIMIT as int, pairs@) && results@.len() == pairs@.len()
            && (forall|k: int|
            0 <= k < pairs@.len() ==> results@[k] == SearchResultItem::App(
                apps@[first_with_name(apps@, apps@[(#[trigger] pairs@[k]).0 as int].name@)],
            )));
    }
    results
}

} // verus!
