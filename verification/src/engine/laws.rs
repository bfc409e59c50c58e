//! What holds of the layers of the filter engine, for every list of
//! candidates and every query.

use crate::engine::model::{
    advance, candidate_ids, embeds, entry_fits, layer_for, occurs_in_order, progress, rank_key,
    rank_keys, ranked, span, survivors, surviving, unfiltered, EngineView, Entry,
};
use crate::ranking::{
    lemma_ranking_is_ranking, lemma_ranking_unique, lemma_ranks_before_total, ranking, ranks_before,
};
use crate::text::{first_occurrence, lemma_first_occurrence};
use vstd::prelude::*;

verus! {

/// The survivors are the advanced forms of the surviving entries, in their
/// order, and every entry that can advance survives.
pub proof fn lemma_survivors(candidates: Seq<Seq<char>>, layer: Seq<Entry>, ch: char)
    ensures
        survivors(candidates, layer, ch).len() == surviving(candidates, layer, ch).len(),
        survivors(candidates, layer, ch).len() <= layer.len(),
        forall|k: int|
            0 <= k < surviving(candidates, layer, ch).len() ==> {
                let i = #[trigger] surviving(candidates, layer, ch)[k];
                &&& 0 <= i < layer.len()
                &&& advance(candidates[layer[i].candidate], layer[i], ch) == Some(
                    survivors(candidates, layer, ch)[k],
                )
            },
        forall|j: int, k: int|
            0 <= j < k < surviving(candidates, layer, ch).len() ==> #[trigger] surviving(
                candidates,
                layer,
                ch,
            )[j] < #[trigger] surviving(candidates, layer, ch)[k],
        forall|i: int|
            0 <= i < layer.len() && advance(candidates[layer[i].candidate], layer[i], ch) is Some
                ==> #[trigger] surviving(candidates, layer, ch).contains(i),
    decreases layer.len(),
{
    if layer.len() > 0 {
        let front = layer.drop_last();
        lemma_survivors(candidates, front, ch);
        let rest = survivors(candidates, front, ch);
        let rest_at = surviving(candidates, front, ch);
        let all = survivors(candidates, layer, ch);
        let all_at = surviving(candidates, layer, ch);
        let last = layer.len() - 1;
        assert forall|k: int| 0 <= k < all_at.len() implies {
            let i = #[trigger] all_at[k];
            &&& 0 <= i < layer.len()
            &&& advance(candidates[layer[i].candidate], layer[i], ch) == Some(all[k])
        } by {
            if k < rest_at.len() {
                assert(all_at[k] == rest_at[k]);
                assert(layer[rest_at[k]] == front[rest_at[k]]);
            }
        }
        assert forall|j: int, k: int| 0 <= j < k < all_at.len() implies #[trigger] all_at[j]
            < #[trigger] all_at[k] by {
            assert(all_at[j] == rest_at[j]);
            if k < rest_at.len() {
                assert(all_at[k] == rest_at[k]);
            }
        }
        assert forall|i: int|
            0 <= i < layer.len() && advance(candidates[layer[i].candidate], layer[i], ch) is Some
            implies #[trigger] all_at.contains(i) by {
            if i < last {
                assert(front[i] == layer[i]);
                assert(rest_at.contains(i));
                let k = choose|k: int| 0 <= k < rest_at.len() && rest_at[k] == i;
                assert(all_at[k] == i);
            } else {
                assert(all_at[all_at.len() - 1] == i);
            }
        }
    }
}

/// A ranked layer holds the entries of the layer it was ranked from, each
/// once, ordered by span, then by candidate length; entries with equal keys
/// keep the order they had.
pub proof fn lemma_ranked(candidates: Seq<Seq<char>>, layer: Seq<Entry>)
    ensures
        ranked(candidates, layer).len() == layer.len(),
        forall|k: int|
            0 <= k < layer.len() ==> layer.contains(#[trigger] ranked(candidates, layer)[k]),
        forall|i: int| 0 <= i < layer.len() ==> ranked(candidates, layer).contains(#[trigger] layer[i]),
        forall|a: int, b: int|
            0 <= a < b < layer.len() ==> {
                let x = #[trigger] ranked(candidates, layer)[a];
                let y = #[trigger] ranked(candidates, layer)[b];
                &&& span(x) <= span(y)
                &&& span(x) == span(y) ==> candidates[x.candidate].len() <= candidates[y.candidate].len()
                &&& rank_key(candidates, x) == rank_key(candidates, y) ==> exists|i: int, j: int|
                    0 <= i < j < layer.len() && layer[i] == x && layer[j] == y
            },
{
    let keys = rank_keys(candidates, layer);
    let order = ranking(keys, layer.len());
    let out = ranked(candidates, layer);
    lemma_ranking_is_ranking(keys, layer.len());
    assert forall|k: int| 0 <= k < layer.len() implies layer.contains(#[trigger] out[k]) by {
        assert(0 <= order[k] < layer.len());
        assert(layer[order[k]] == out[k]);
    }
    assert forall|i: int| 0 <= i < layer.len() implies out.contains(#[trigger] layer[i]) by {
        assert(order.contains(i));
        let k = choose|k: int| 0 <= k < order.len() && order[k] == i;
        assert(out[k] == layer[i]);
    }
    assert forall|a: int, b: int| 0 <= a < b < layer.len() implies {
        let x = #[trigger] out[a];
        let y = #[trigger] out[b];
        &&& span(x) <= span(y)
        &&& span(x) == span(y) ==> candidates[x.candidate].len() <= candidates[y.candidate].len()
        &&& rank_key(candidates, x) == rank_key(candidates, y) ==> exists|i: int, j: int|
            0 <= i < j < layer.len() && layer[i] == x && layer[j] == y
    } by {
        let i = order[a];
        let j = order[b];
        assert(0 <= i < layer.len() && 0 <= j < layer.len());
        assert(ranks_before(keys, i, j));
        assert(keys[i] == rank_key(candidates, layer[i]));
        assert(keys[j] == rank_key(candidates, layer[j]));
        if rank_key(candidates, out[a]) == rank_key(candidates, out[b]) {
            assert(i < j && layer[i] == out[a] && layer[j] == out[b]);
        }
    }
}

/// A ranked layer is in its final order: ranking it again changes nothing.
pub proof fn lemma_ranked_idempotent(candidates: Seq<Seq<char>>, layer: Seq<Entry>)
    ensures
        ranked(candidates, ranked(candidates, layer)) == ranked(candidates, layer),
{
    let once = ranked(candidates, layer);
    let keys = rank_keys(candidates, once);
    let same = Seq::new(once.len(), |i: int| i);
    lemma_ranked(candidates, layer);
    assert forall|a: int, b: int| 0 <= a < b < same.len() implies ranks_before(
        keys,
        #[trigger] same[a],
        #[trigger] same[b],
    ) by {
        let x = once[a];
        let y = once[b];
        assert(span(x) <= span(y));
    }
    assert forall|v: int| 0 <= v < once.len() implies #[trigger] same.contains(v) by {
        assert(same[v] == v);
    }
    lemma_ranking_unique(keys, same, once.len());
    assert(ranked(candidates, once) =~= once);
}

/// The survivors of a result layer refer to candidates and lie inside them.
pub proof fn lemma_survivors_fit(candidates: Seq<Seq<char>>, query: Seq<char>, ch: char)
    ensures
        forall|k: int|
            0 <= k < survivors(candidates, layer_for(candidates, query), ch).len() ==> entry_fits(
                candidates,
                #[trigger] survivors(candidates, layer_for(candidates, query), ch)[k],
            ),
{
    let before = layer_for(candidates, query);
    let kept = survivors(candidates, before, ch);
    lemma_results_fit(candidates, query);
    lemma_survivors(candidates, before, ch);
    assert forall|k: int| 0 <= k < kept.len() implies entry_fits(candidates, #[trigger] kept[k]) by {
        let i = surviving(candidates, before, ch)[k];
        assert(entry_fits(candidates, before[i]));
        lemma_first_occurrence(candidates[before[i].candidate], before[i].cursor, ch);
    }
}

/// Every entry of a result layer refers to a candidate and lies inside it,
/// and once a character has been typed its cursor is behind its first match.
pub proof fn lemma_results_fit(candidates: Seq<Seq<char>>, query: Seq<char>)
    ensures
        forall|k: int|
            0 <= k < layer_for(candidates, query).len() ==> {
                let e = #[trigger] layer_for(candidates, query)[k];
                &&& entry_fits(candidates, e)
                &&& query.len() > 0 ==> e.first is Some
            },
    decreases query.len(),
{
    if query.len() > 0 {
        let before = layer_for(candidates, query.drop_last());
        let kept = survivors(candidates, before, query.last());
        let after = layer_for(candidates, query);
        lemma_results_fit(candidates, query.drop_last());
        lemma_survivors(candidates, before, query.last());
        lemma_ranked(candidates, kept);
        assert forall|k: int| 0 <= k < after.len() implies {
            let e = #[trigger] after[k];
            &&& entry_fits(candidates, e)
            &&& e.first is Some
        } by {
            assert(kept.contains(after[k]));
            let m = choose|m: int| 0 <= m < kept.len() && kept[m] == after[k];
            let i = surviving(candidates, before, query.last())[m];
            assert(entry_fits(candidates, before[i]));
            lemma_first_occurrence(candidates[before[i].candidate], before[i].cursor, query.last());
        }
    }
}

/// Typing one more character never brings a candidate back: the candidates
/// that match the longer query are among those that match the shorter one.
pub proof fn lemma_refinement_monotone(v: EngineView, ch: char)
    ensures
        candidate_ids(v.push(ch).results()).subset_of(candidate_ids(v.results())),
{
    let before = v.results();
    let after = v.push(ch).results();
    let kept = survivors(v.candidates, before, ch);
    assert(v.query.push(ch).drop_last() =~= v.query);
    assert(after == ranked(v.candidates, kept));
    lemma_survivors(v.candidates, before, ch);
    lemma_ranked(v.candidates, kept);
    assert forall|c: int| candidate_ids(after).contains(c) implies candidate_ids(before).contains(
        c,
    ) by {
        let k = choose|k: int| 0 <= k < after.len() && #[trigger] after[k].candidate == c;
        assert(kept.contains(after[k]));
        let m = choose|m: int| 0 <= m < kept.len() && kept[m] == after[k];
        let i = surviving(v.candidates, before, ch)[m];
        assert(before[i].candidate == c);
    }
}

/// Where the top `k` show every result of a query, the candidates among the
/// top `k` of the query with one more character are among them.
pub proof fn lemma_top_refinement(v: EngineView, ch: char, k: nat)
    requires
        k >= v.results().len(),
    ensures
        v.push(ch).results().len() <= v.results().len(),
        v.push(ch).top_ids(k).subset_of(v.top_ids(k)),
{
    let before = v.results();
    let after = v.push(ch).results();
    assert(v.query.push(ch).drop_last() =~= v.query);
    lemma_survivors(v.candidates, before, ch);
    lemma_ranked(v.candidates, survivors(v.candidates, before, ch));
    lemma_refinement_monotone(v, ch);
    assert(before.take(before.len() as int) =~= before);
    assert(after.take(after.len() as int) =~= after);
}

/// Removing the character that was just typed restores the state, and with it
/// the current layer and the whole stack of layers.
pub proof fn lemma_push_pop_inverse(v: EngineView, ch: char)
    ensures
        v.push(ch).pop() == v,
        v.push(ch).pop().results() == v.results(),
        v.push(ch).pop().layers() == v.layers(),
        v.push(ch).layers().drop_last() == v.layers(),
{
    assert(v.query.push(ch).drop_last() =~= v.query);
    assert forall|k: int| 0 <= k <= v.query.len() implies v.query.push(ch).take(k)
        == v.query.take(k) by {
        assert(v.query.push(ch).take(k) =~= v.query.take(k));
    }
    assert(v.push(ch).layers().drop_last() =~= v.layers());
}

/// With the empty query the results are the candidates themselves, in their
/// given order: the top `k` are the first `k` candidates.
pub proof fn lemma_empty_query_baseline(candidates: Seq<Seq<char>>, k: nat)
    ensures
        (EngineView { candidates, query: Seq::empty() }).top(k) == candidates.take(
            if k <= candidates.len() {
                k as int
            } else {
                candidates.len() as int
            },
        ),
{
    let v = EngineView { candidates, query: Seq::empty() };
    assert(v.results() == unfiltered(candidates.len()));
    assert(v.top(k) =~= candidates.take(
        if k <= candidates.len() {
            k as int
        } else {
            candidates.len() as int
        },
    ));
}

/// The layer of a query holds one entry for each candidate in which the
/// query makes progress to the end, that entry is where the progress leads,
/// and no candidate has two entries.
pub proof fn lemma_layer_holds_matches(candidates: Seq<Seq<char>>, query: Seq<char>)
    ensures
        forall|k: int|
            0 <= k < layer_for(candidates, query).len() ==> {
                let e = #[trigger] layer_for(candidates, query)[k];
                &&& 0 <= e.candidate < candidates.len()
                &&& progress(candidates[e.candidate], e.candidate, query) == Some(e)
            },
        forall|i: int|
            0 <= i < candidates.len() && (#[trigger] progress(candidates[i], i, query)) is Some
                ==> candidate_ids(layer_for(candidates, query)).contains(i),
        forall|j: int, k: int|
            0 <= j < k < layer_for(candidates, query).len() ==> (#[trigger] layer_for(
                candidates,
                query,
            )[j]).candidate != (#[trigger] layer_for(candidates, query)[k]).candidate,
    decreases query.len(),
{
    let layer = layer_for(candidates, query);
    if query.len() == 0 {
        assert forall|i: int|
            0 <= i < candidates.len() && (#[trigger] progress(candidates[i], i, query)) is Some
            implies candidate_ids(layer).contains(i) by {
            assert(layer[i].candidate == i);
        }
    } else {
        let shorter = query.drop_last();
        let ch = query.last();
        let before = layer_for(candidates, shorter);
        let kept = survivors(candidates, before, ch);
        let kept_at = surviving(candidates, before, ch);
        lemma_layer_holds_matches(candidates, shorter);
        lemma_survivors(candidates, before, ch);
        lemma_ranked(candidates, kept);
        assert forall|k: int| 0 <= k < layer.len() implies {
            let e = #[trigger] layer[k];
            &&& 0 <= e.candidate < candidates.len()
            &&& progress(candidates[e.candidate], e.candidate, query) == Some(e)
        } by {
            assert(kept.contains(layer[k]));
            let m = choose|m: int| 0 <= m < kept.len() && kept[m] == layer[k];
            let i = kept_at[m];
            assert(progress(candidates[before[i].candidate], before[i].candidate, shorter) == Some(
                before[i],
            ));
        }
        assert forall|i: int|
            0 <= i < candidates.len() && (#[trigger] progress(candidates[i], i, query)) is Some
            implies candidate_ids(layer).contains(i) by {
            assert(progress(candidates[i], i, shorter) is Some);
            assert(candidate_ids(before).contains(i));
            let b = choose|b: int| 0 <= b < before.len() && #[trigger] before[b].candidate == i;
            assert(progress(candidates[i], i, shorter) == Some(before[b]));
            assert(kept_at.contains(b));
            let m = choose|m: int| 0 <= m < kept_at.len() && kept_at[m] == b;
            assert(layer.contains(kept[m]));
            let k = choose|k: int| 0 <= k < layer.len() && layer[k] == kept[m];
            assert(layer[k].candidate == i);
        }
        assert forall|j: int, k: int| 0 <= j < k < kept.len() implies (#[trigger] kept[j]).candidate
            != (#[trigger] kept[k]).candidate by {
            assert(kept_at[j] < kept_at[k]);
            assert(before[kept_at[j]].candidate != before[kept_at[k]].candidate);
        }
        let keys = rank_keys(candidates, kept);
        let order = ranking(keys, kept.len());
        lemma_ranking_is_ranking(keys, kept.len());
        assert forall|j: int, k: int| 0 <= j < k < layer.len() implies (#[trigger] layer[j]).candidate
            != (#[trigger] layer[k]).candidate by {
            assert(ranks_before(keys, order[j], order[k]));
            lemma_ranks_before_total(keys, order[j], order[j]);
            assert(0 <= order[j] < kept.len() && 0 <= order[k] < kept.len());
            if order[j] < order[k] {
                assert(kept[order[j]].candidate != kept[order[k]].candidate);
            } else {
                assert(kept[order[k]].candidate != kept[order[j]].candidate);
            }
        }
    }
}

/// Where the progress of a query leads: the cursor lies behind the last
/// character matched, the entry lies inside the candidate, and the places of
/// the matches are the leftmost possible.
proof fn lemma_progress_places(candidate: Seq<char>, id: int, query: Seq<char>) -> (places: Seq<
    int,
>)
    requires
        progress(candidate, id, query) is Some,
    ensures
        embeds(candidate, query, places),
        progress(candidate, id, query)->0.candidate == id,
        0 <= progress(candidate, id, query)->0.cursor <= candidate.len(),
        query.len() == 0 ==> progress(candidate, id, query)->0.cursor == 0,
        query.len() > 0 ==> progress(candidate, id, query)->0.cursor == places.last() + 1,
        query.len() > 0 ==> progress(candidate, id, query)->0.first == Some(places[0]),
    decreases query.len(),
{
    if query.len() == 0 {
        Seq::empty()
    } else {
        let shorter = query.drop_last();
        let before = progress(candidate, id, shorter)->0;
        let earlier = lemma_progress_places(candidate, id, shorter);
        lemma_first_occurrence(candidate, before.cursor, query.last());
        let p = first_occurrence(candidate, before.cursor, query.last())->0;
        let places = earlier.push(p);
        assert forall|k: int| 0 <= k < places.len() implies 0 <= #[trigger] places[k]
            < candidate.len() && candidate[places[k]] == query[k] by {
            if k < earlier.len() {
                assert(places[k] == earlier[k]);
                assert(shorter[k] == query[k]);
            }
        }
        assert forall|j: int, k: int| 0 <= j < k < places.len() implies #[trigger] places[j]
            < #[trigger] places[k] by {
            assert(places[j] == earlier[j]);
            if k < earlier.len() {
                assert(places[k] == earlier[k]);
            } else if j < earlier.len() - 1 {
                assert(earlier[j] < earlier[earlier.len() - 1]);
            }
        }
        if shorter.len() > 0 {
            assert(places[0] == earlier[0]);
            assert(earlier[0] <= earlier[earlier.len() - 1]) by {
                if earlier.len() > 1 {
                    assert(earlier[0] < earlier[earlier.len() - 1]);
                }
            }
        }
        places
    }
}

/// Where the characters of a query can be placed in a candidate in their
/// order, the query makes progress to its end, and no further than the
/// placing does.
proof fn lemma_embedding_makes_progress(
    candidate: Seq<char>,
    id: int,
    query: Seq<char>,
    places: Seq<int>,
)
    requires
        embeds(candidate, query, places),
    ensures
        progress(candidate, id, query) is Some,
        0 <= progress(candidate, id, query)->0.cursor,
        query.len() > 0 ==> progress(candidate, id, query)->0.cursor <= places.last() + 1,
        query.len() == 0 ==> progress(candidate, id, query)->0.cursor == 0,
    decreases query.len(),
{
    if query.len() > 0 {
        let shorter = query.drop_last();
        let fewer = places.drop_last();
        assert forall|k: int| 0 <= k < fewer.len() implies 0 <= #[trigger] fewer[k]
            < candidate.len() && candidate[fewer[k]] == shorter[k] by {
            assert(fewer[k] == places[k]);
        }
        assert forall|j: int, k: int| 0 <= j < k < fewer.len() implies #[trigger] fewer[j]
            < #[trigger] fewer[k] by {
            assert(fewer[j] == places[j] && fewer[k] == places[k]);
        }
        lemma_embedding_makes_progress(candidate, id, shorter, fewer);
        let before = progress(candidate, id, shorter)->0;
        let last = places.last();
        assert(before.cursor <= last) by {
            if shorter.len() > 0 {
                assert(fewer.last() == places[places.len() - 2]);
                assert(places[places.len() - 2] < places[places.len() - 1]);
            }
        }
        assert(candidate[last] == query.last());
        lemma_first_occurrence(candidate, before.cursor, query.last());
        if shorter.len() == 0 {
            assert(before.cursor == 0);
        }
    }
}

/// A query makes progress to its end in a candidate exactly where its
/// characters occur in the candidate in their order.
pub proof fn lemma_progress_iff_occurs_in_order(candidate: Seq<char>, id: int, query: Seq<char>)
    ensures
        progress(candidate, id, query) is Some <==> occurs_in_order(candidate, query),
{
    if progress(candidate, id, query) is Some {
        let places = lemma_progress_places(candidate, id, query);
        assert(embeds(candidate, query, places));
    }
    if occurs_in_order(candidate, query) {
        let places = choose|places: Seq<int>| embeds(candidate, query, places);
        lemma_embedding_makes_progress(candidate, id, query, places);
    }
}

/// The candidates of a query's layer are those in which the characters of the
/// query occur in their order.
pub proof fn lemma_results_are_the_matches(v: EngineView, i: int)
    requires
        0 <= i < v.candidates.len(),
    ensures
        candidate_ids(v.results()).contains(i) <==> occurs_in_order(v.candidates[i], v.query),
{
    lemma_layer_holds_matches(v.candidates, v.query);
    lemma_progress_iff_occurs_in_order(v.candidates[i], i, v.query);
    if candidate_ids(v.results()).contains(i) {
        let k = choose|k: int| 0 <= k < v.results().len() && #[trigger] v.results()[k].candidate == i;
        assert(progress(v.candidates[i], i, v.query) == Some(v.results()[k]));
    }
}

} // verus!
