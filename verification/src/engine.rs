//! The filter engine: a fixed list of candidate strings, narrowed and ranked
//! one typed character at a time, with one result layer kept per character so
//! that removing a character costs nothing.

pub mod laws;
pub mod model;

use crate::engine::laws::{lemma_results_fit, lemma_survivors_fit};
use crate::engine::model::{
    advance, entry_fits, layer_for, layer_view, rank_key, rank_keys, ranked, survivors, unfiltered,
    EngineView, Entry,
};
use crate::ranking::{indices, key_values, rank_order, ranking};
use crate::text::{find_char, lemma_first_occurrence};
use vstd::prelude::*;
use vstd::string::StrSliceExecFns;

verus! {

/// One surviving candidate of a result layer.
#[derive(Clone, Copy, Debug, PartialEq, Eq)]
pub struct SearchResult {
    /// Position of the candidate in the candidate list.
    pub file_id: usize,
    /// Where the search for the next character starts in the candidate.
    pub search_start: usize,
    /// The smallest position at which a character of the query was found;
    /// `None` while no character has been typed.
    pub first_occ: Option<usize>,
}

impl View for SearchResult {
    type V = Entry;

    open spec fn view(&self) -> Entry {
        Entry {
            candidate: self.file_id as int,
            cursor: self.search_start as int,
            first: match self.first_occ {
                Some(f) => Some(f as int),
                None => None,
            },
        }
    }
}

/// The filter engine.
pub struct Engine {
    base_layer: Vec<String>,
    lengths: Vec<usize>,
    search_layers: Vec<Vec<SearchResult>>,
    query: Ghost<Seq<char>>,
}

impl View for Engine {
    type V = EngineView;

    closed spec fn view(&self) -> EngineView {
        EngineView { candidates: self.base_layer.deep_view(), query: self.query@ }
    }
}

impl Engine {
    /// The stored state is consistent: one layer per prefix of the query, each
    /// the result layer of that prefix.
    pub closed spec fn wf(&self) -> bool {
        &&& self.lengths@.len() == self.base_layer@.len()
        &&& forall|i: int|
            0 <= i < self.lengths@.len() ==> #[trigger] self.lengths@[i] == self.base_layer@[i]@.len()
        &&& self.search_layers@.len() == self.query@.len() + 1
        &&& forall|k: int|
            0 <= k < self.search_layers@.len() ==> layer_view(#[trigger] self.search_layers@[k]@)
                == layer_for(self@.candidates, self.query@.take(k))
    }

    /// Number of candidates that match the query.
    pub fn results_size(&self) -> (n: usize)
        requires
            self.wf(),
        ensures
            n == self@.results().len(),
    {
        let layer = self.results();
        proof {
            assert(layer_view(layer@).len() == layer@.len());
        }
        layer.len()
    }

    /// The current layer: the candidates that match the query, best first.
    pub fn results(&self) -> (layer: &Vec<SearchResult>)
        requires
            self.wf(),
        ensures
            layer_view(layer@) == self@.results(),
    {
        let top = self.search_layers.len() - 1;
        proof {
            assert(self.query@.take(top as int) =~= self.query@);
        }
        &self.search_layers[top]
    }

    /// An engine over `candidates`, with the empty query.
    pub fn new(candidates: Vec<String>) -> (engine: Engine)
        ensures
            engine.wf(),
            engine@.candidates == candidates.deep_view(),
            engine@.query == Seq::<char>::empty(),
    {
        let mut lengths: Vec<usize> = Vec::new();
        let mut layer: Vec<SearchResult> = Vec::new();
        let n = candidates.len();
        let mut id: usize = 0;
        while id < n
            invariant
                n == candidates@.len(),
                id <= n,
                lengths@.len() == id,
                layer@.len() == id,
                forall|i: int| 0 <= i < id ==> #[trigger] lengths@[i] == candidates@[i]@.len(),
                forall|i: int|
                    0 <= i < id ==> #[trigger] layer@[i] == (SearchResult {
                        file_id: i as usize,
                        search_start: 0,
                        first_occ: None,
                    }),
            decreases n - id,
        {
            lengths.push(candidates[id].as_str().unicode_len());
            layer.push(SearchResult { file_id: id, search_start: 0, first_occ: None });
            id = id + 1;
        }
        let mut search_layers: Vec<Vec<SearchResult>> = Vec::new();
        search_layers.push(layer);
        let engine = Engine {
            base_layer: candidates,
            lengths,
            search_layers,
            query: Ghost(Seq::empty()),
        };
        proof {
            assert(engine@.candidates.len() == n);
            assert(engine.query@.take(0) =~= Seq::<char>::empty());
            assert(layer_view(engine.search_layers@[0]@) =~= unfiltered(n as nat));
        }
        engine
    }

    /// The entries of the current layer that survive `chr`, advanced, in the
    /// order of the current layer.
    fn create_new_layer(&self, chr: char) -> (new_layer: Vec<SearchResult>)
        requires
            self.wf(),
        ensures
            layer_view(new_layer@) == survivors(self@.candidates, self@.results(), chr),
    {
        let layer = self.results();
        let ghost candidates = self@.candidates;
        let ghost current = layer_view(layer@);
        proof {
            lemma_results_fit(candidates, self@.query);
        }
        let mut new_layer: Vec<SearchResult> = Vec::new();
        let mut i: usize = 0;
        while i < layer.len()
            invariant
                self.wf(),
                candidates == self@.candidates,
                current == layer_view(layer@),
                forall|k: int| 0 <= k < current.len() ==> entry_fits(candidates, #[trigger] current[k]),
                i <= layer@.len(),
                layer_view(new_layer@) == survivors(candidates, current.take(i as int), chr),
            decreases layer@.len() - i,
        {
            let element = layer[i];
            let ghost before = layer_view(new_layer@);
            proof {
                assert(current[i as int] == element@);
                assert(current.take(i as int + 1).drop_last() =~= current.take(i as int));
                assert(current.take(i as int + 1).last() == element@);
                lemma_first_occurrence(candidates[element@.candidate], element@.cursor, chr);
            }
            let found = find_char(
                self.base_layer[element.file_id].as_str(),
                self.lengths[element.file_id],
                element.search_start,
                chr,
            );
            if let Some(pos) = found {
                let first = match element.first_occ {
                    Some(f) => if f <= pos {
                        f
                    } else {
                        pos
                    },
                    None => pos,
                };
                let advanced = SearchResult {
                    file_id: element.file_id,
                    search_start: pos + 1,
                    first_occ: Some(first),
                };
                new_layer.push(advanced);
                proof {
                    assert(advance(candidates[element@.candidate], element@, chr) == Some(
                        advanced@,
                    ));
                    assert(layer_view(new_layer@) =~= before.push(advanced@));
                }
            }
            i = i + 1;
        }
        proof {
            assert(current.take(i as int) =~= current);
        }
        new_layer
    }

    /// The rank keys of the entries of `layer`: span and candidate length.
    fn keys_of(&self, layer: &Vec<SearchResult>) -> (keys: Vec<(usize, usize)>)
        requires
            self.wf(),
            forall|k: int|
                0 <= k < layer@.len() ==> entry_fits(self@.candidates, (#[trigger] layer@[k])@),
        ensures
            keys@.len() == layer@.len(),
            key_values(keys@) == rank_keys(self@.candidates, layer_view(layer@)),
    {
        let ghost candidates = self@.candidates;
        let ghost entries = layer_view(layer@);
        let mut keys: Vec<(usize, usize)> = Vec::new();
        let mut i: usize = 0;
        while i < layer.len()
            invariant
                self.wf(),
                candidates == self@.candidates,
                entries == layer_view(layer@),
                forall|k: int| 0 <= k < layer@.len() ==> entry_fits(candidates, (#[trigger] layer@[k])@),
                i <= layer@.len(),
                keys@.len() == i,
                forall|k: int|
                    0 <= k < i ==> #[trigger] key_values(keys@)[k] == rank_key(candidates, entries[k]),
            decreases layer@.len() - i,
        {
            let e = layer[i];
            proof {
                assert(entry_fits(candidates, layer@[i as int]@));
            }
            let span = match e.first_occ {
                Some(first) => e.search_start - first,
                None => e.search_start,
            };
            let ghost earlier = key_values(keys@);
            keys.push((span, self.lengths[e.file_id]));
            proof {
                assert(key_values(keys@) =~= earlier.push(
                    (span as int, self.lengths@[e.file_id as int] as int),
                ));
                assert(entries[i as int] == e@);
                assert(candidates[e@.candidate] == self.base_layer@[e.file_id as int]@);
            }
            i = i + 1;
        }
        proof {
            assert(key_values(keys@) =~= rank_keys(candidates, entries));
        }
        keys
    }

    /// `layer` ranked: by span, then by candidate length, entries with equal
    /// keys in the order they have.
    fn rank_layer(&self, layer: Vec<SearchResult>) -> (ranked_layer: Vec<SearchResult>)
        requires
            self.wf(),
            forall|k: int|
                0 <= k < layer@.len() ==> entry_fits(self@.candidates, (#[trigger] layer@[k])@),
        ensures
            layer_view(ranked_layer@) == ranked(self@.candidates, layer_view(layer@)),
    {
        let keys = self.keys_of(&layer);
        let order = rank_order(&keys);
        let mut ranked_layer: Vec<SearchResult> = Vec::new();
        let mut j: usize = 0;
        while j < order.len()
            invariant
                order@.len() == layer@.len(),
                forall|k: int| 0 <= k < order@.len() ==> #[trigger] order@[k] < layer@.len(),
                j <= order@.len(),
                ranked_layer@.len() == j,
                forall|k: int| 0 <= k < j ==> #[trigger] ranked_layer@[k] == layer@[order@[k] as int],
            decreases order@.len() - j,
        {
            ranked_layer.push(layer[order[j]]);
            j = j + 1;
        }
        proof {
            let entries = layer_view(layer@);
            assert(indices(order@) == ranking(rank_keys(self@.candidates, entries), entries.len()));
            assert forall|k: int| 0 <= k < ranked_layer@.len() implies layer_view(
                ranked_layer@,
            )[k] == ranked(self@.candidates, entries)[k] by {
                assert(indices(order@)[k] == order@[k] as int);
            }
            assert(layer_view(ranked_layer@) =~= ranked(self@.candidates, entries));
        }
        ranked_layer
    }

    /// The first `no_items` candidate strings of the current layer, in ranked
    /// order; all of them where there are fewer.
    pub fn get_items(&self, no_items: usize) -> (names: Vec<String>)
        requires
            self.wf(),
        ensures
            names.deep_view() == self@.top(no_items as nat),
            names@.len() == self@.top(no_items as nat).len(),
    {
        let layer = self.results();
        proof {
            lemma_results_fit(self@.candidates, self@.query);
        }
        let count = if no_items <= layer.len() {
            no_items
        } else {
            layer.len()
        };
        let mut names: Vec<String> = Vec::new();
        let mut i: usize = 0;
        while i < count
            invariant
                layer_view(layer@) == self@.results(),
                self@.candidates == self.base_layer.deep_view(),
                forall|k: int|
                    0 <= k < self@.results().len() ==> entry_fits(
                        self@.candidates,
                        #[trigger] self@.results()[k],
                    ),
                count <= layer@.len(),
                i <= count,
                names@.len() == i,
                forall|k: int|
                    0 <= k < i ==> (#[trigger] names@[k])@ == self@.candidates[self@.results()[k].candidate],
            decreases count - i,
        {
            let search_result = layer[i];
            proof {
                assert(layer_view(layer@)[i as int] == search_result@);
            }
            names.push(self.base_layer[search_result.file_id].clone());
            i = i + 1;
        }
        proof {
            assert(names.deep_view() =~= self@.top(no_items as nat));
        }
        names
    }

    /// Types `chr`: the survivors of the current layer, ranked, become the new
    /// current layer.
    pub fn push_char(&mut self, chr: char)
        requires
            old(self).wf(),
        ensures
            final(self).wf(),
            final(self)@ == old(self)@.push(chr),
    {
        let unsorted = self.create_new_layer(chr);
        proof {
            let longer = self@.query.push(chr);
            assert(longer.drop_last() =~= self@.query);
            lemma_survivors_fit(self@.candidates, self@.query, chr);
            assert forall|k: int| 0 <= k < unsorted@.len() implies entry_fits(
                self@.candidates,
                (#[trigger] unsorted@[k])@,
            ) by {
                assert(layer_view(unsorted@)[k] == unsorted@[k]@);
            }
        }
        let layer = self.rank_layer(unsorted);
        let ghost old_layers = self.search_layers@;
        let ghost old_query = self.query@;
        self.search_layers.push(layer);
        self.query = Ghost(old_query.push(chr));
        proof {
            let new_query = self.query@;
            assert(new_query.drop_last() =~= old_query);
            assert(new_query.take(old_query.len() as int + 1) =~= new_query);
            assert forall|k: int| 0 <= k < self.search_layers@.len() implies layer_view(
                #[trigger] self.search_layers@[k]@,
            ) == layer_for(self@.candidates, new_query.take(k)) by {
                if k < old_layers.len() {
                    assert(self.search_layers@[k] == old_layers[k]);
                    assert(new_query.take(k) =~= old_query.take(k));
                }
            }
        }
    }

    /// Removes the last typed character: the layer below becomes current
    /// again. With the empty query nothing changes.
    pub fn pop_char(&mut self)
        requires
            old(self).wf(),
        ensures
            final(self).wf(),
            final(self)@ == old(self)@.pop(),
    {
        if self.search_layers.len() > 1 {
            let ghost old_layers = self.search_layers@;
            let ghost old_query = self.query@;
            self.search_layers.pop();
            self.query = Ghost(old_query.drop_last());
            proof {
                let new_query = self.query@;
                assert forall|k: int| 0 <= k < self.search_layers@.len() implies layer_view(
                    #[trigger] self.search_layers@[k]@,
                ) == layer_for(self@.candidates, new_query.take(k)) by {
                    assert(self.search_layers@[k] == old_layers[k]);
                    assert(new_query.take(k) =~= old_query.take(k));
                }
            }
        }
    }
}

} // verus!
