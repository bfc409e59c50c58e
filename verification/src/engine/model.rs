//! What the filter engine computes, stated over sequences of characters:
//! how an entry advances, which entries survive a character, how a layer is
//! ranked, and the layer that belongs to a query.

use crate::engine::SearchResult;
use crate::ranking::ranking;
use crate::text::first_occurrence;
use vstd::prelude::*;

verus! {

/// A `SearchResult` as mathematical values.
pub struct Entry {
    pub candidate: int,
    pub cursor: int,
    pub first: Option<int>,
}

/// The entries of a stored layer as mathematical values.
pub open spec fn layer_view(layer: Seq<SearchResult>) -> Seq<Entry> {
    layer.map_values(|e: SearchResult| e@)
}

/// The layer of the empty query: every candidate, in the given order, with
/// nothing matched yet.
pub open spec fn unfiltered(n: nat) -> Seq<Entry> {
    Seq::new(n, |i: int| Entry { candidate: i, cursor: 0, first: None })
}

/// The smaller of an earlier first match position, if there is one, and `p`.
pub open spec fn earliest(first: Option<int>, p: int) -> int {
    match first {
        Some(f) => if f <= p {
            f
        } else {
            p
        },
        None => p,
    }
}

/// What becomes of entry `e` of `candidate` when `ch` is typed: it survives
/// where `ch` occurs at or after its cursor, and then moves behind that
/// occurrence.
pub open spec fn advance(candidate: Seq<char>, e: Entry, ch: char) -> Option<Entry> {
    match first_occurrence(candidate, e.cursor, ch) {
        Some(p) => Some(Entry { candidate: e.candidate, cursor: p + 1, first: Some(earliest(e.first, p)) }),
        None => None,
    }
}

/// The entries of `layer` that survive `ch`, advanced, in the order of `layer`.
pub open spec fn survivors(candidates: Seq<Seq<char>>, layer: Seq<Entry>, ch: char) -> Seq<Entry>
    decreases layer.len(),
{
    if layer.len() == 0 {
        Seq::empty()
    } else {
        let rest = survivors(candidates, layer.drop_last(), ch);
        match advance(candidates[layer.last().candidate], layer.last(), ch) {
            Some(e) => rest.push(e),
            None => rest,
        }
    }
}

/// The indices of the entries of `layer` that survive `ch`, ascending.
pub open spec fn surviving(candidates: Seq<Seq<char>>, layer: Seq<Entry>, ch: char) -> Seq<int>
    decreases layer.len(),
{
    if layer.len() == 0 {
        Seq::empty()
    } else {
        let rest = surviving(candidates, layer.drop_last(), ch);
        if advance(candidates[layer.last().candidate], layer.last(), ch) is Some {
            rest.push(layer.len() - 1)
        } else {
            rest
        }
    }
}

/// The distance from the first matched position to the cursor.
pub open spec fn span(e: Entry) -> int {
    match e.first {
        Some(f) => e.cursor - f,
        None => e.cursor,
    }
}

/// The rank key of an entry: its span, then the length of its candidate.
pub open spec fn rank_key(candidates: Seq<Seq<char>>, e: Entry) -> (int, int) {
    (span(e), candidates[e.candidate].len() as int)
}

/// The rank keys of a layer's entries.
pub open spec fn rank_keys(candidates: Seq<Seq<char>>, layer: Seq<Entry>) -> Seq<(int, int)> {
    Seq::new(layer.len(), |i: int| rank_key(candidates, layer[i]))
}

/// `layer` ranked: by span, then by candidate length, entries with equal keys
/// in the order they had.
pub open spec fn ranked(candidates: Seq<Seq<char>>, layer: Seq<Entry>) -> Seq<Entry> {
    ranking(rank_keys(candidates, layer), layer.len()).map_values(|i: int| layer[i])
}

/// The layer that follows `layer` when `ch` is typed.
pub open spec fn next_layer(candidates: Seq<Seq<char>>, layer: Seq<Entry>, ch: char) -> Seq<Entry> {
    ranked(candidates, survivors(candidates, layer, ch))
}

/// The result layer of `query` over `candidates`.
pub open spec fn layer_for(candidates: Seq<Seq<char>>, query: Seq<char>) -> Seq<Entry>
    decreases query.len(),
{
    if query.len() == 0 {
        unfiltered(candidates.len())
    } else {
        next_layer(candidates, layer_for(candidates, query.drop_last()), query.last())
    }
}

/// An entry that refers to a candidate and lies inside it.
pub open spec fn entry_fits(candidates: Seq<Seq<char>>, e: Entry) -> bool {
    &&& 0 <= e.candidate < candidates.len()
    &&& 0 <= e.cursor <= candidates[e.candidate].len()
    &&& match e.first {
        Some(f) => 0 <= f < e.cursor,
        None => true,
    }
}

/// The candidates that a layer holds.
pub open spec fn candidate_ids(layer: Seq<Entry>) -> Set<int> {
    Set::new(|c: int| exists|i: int| 0 <= i < layer.len() && #[trigger] layer[i].candidate == c)
}

/// The entry that `query` leads to in the candidate `id`, `candidate`: each
/// character in turn is looked for behind the one before. `None` where one of
/// them is not found.
pub open spec fn progress(candidate: Seq<char>, id: int, query: Seq<char>) -> Option<Entry>
    decreases query.len(),
{
    if query.len() == 0 {
        Some(Entry { candidate: id, cursor: 0, first: None })
    } else {
        match progress(candidate, id, query.drop_last()) {
            Some(e) => advance(candidate, e, query.last()),
            None => None,
        }
    }
}

/// `places` are positions in `candidate`, one for each character of `query`
/// and holding it, in ascending order.
pub open spec fn embeds(candidate: Seq<char>, query: Seq<char>, places: Seq<int>) -> bool {
    &&& places.len() == query.len()
    &&& forall|k: int|
        0 <= k < places.len() ==> 0 <= #[trigger] places[k] < candidate.len() && candidate[places[k]]
            == query[k]
    &&& forall|j: int, k: int| 0 <= j < k < places.len() ==> #[trigger] places[j] < #[trigger] places[k]
}

/// The characters of `query` occur in `candidate` in their order, not
/// necessarily side by side.
pub open spec fn occurs_in_order(candidate: Seq<char>, query: Seq<char>) -> bool {
    exists|places: Seq<int>| embeds(candidate, query, places)
}

/// The state of an engine: its candidates and the query typed so far.
pub struct EngineView {
    pub candidates: Seq<Seq<char>>,
    pub query: Seq<char>,
}

impl EngineView {
    /// The current result layer.
    pub open spec fn results(self) -> Seq<Entry> {
        layer_for(self.candidates, self.query)
    }

    /// The stack of layers: one per prefix of the query, the empty prefix first.
    pub open spec fn layers(self) -> Seq<Seq<Entry>> {
        Seq::new(self.query.len() + 1, |k: int| layer_for(self.candidates, self.query.take(k)))
    }

    /// The candidate strings of the first `k` results, or of all where there
    /// are fewer.
    pub open spec fn top(self, k: nat) -> Seq<Seq<char>> {
        Seq::new(
            if k <= self.results().len() {
                k
            } else {
                self.results().len()
            },
            |i: int| self.candidates[self.results()[i].candidate],
        )
    }

    /// The candidates of the first `k` results, or of all where there are
    /// fewer.
    pub open spec fn top_ids(self, k: nat) -> Set<int> {
        candidate_ids(
            self.results().take(
                if k <= self.results().len() {
                    k as int
                } else {
                    self.results().len() as int
                },
            ),
        )
    }

    /// The state after `ch` is typed.
    pub open spec fn push(self, ch: char) -> EngineView {
        EngineView { candidates: self.candidates, query: self.query.push(ch) }
    }

    /// The state after the last character is removed; the empty query stays.
    pub open spec fn pop(self) -> EngineView {
        if self.query.len() == 0 {
            self
        } else {
            EngineView { candidates: self.candidates, query: self.query.drop_last() }
        }
    }
}

} // verus!
