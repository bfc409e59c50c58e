use fzf::engine::{Engine, SearchResult};

fn engine_of(names: &[&str]) -> Engine {
    Engine::new(names.iter().map(|s| s.to_string()).collect())
}

fn type_query(engine: &mut Engine, query: &str) {
    for ch in query.chars() {
        engine.push_char(ch);
    }
}

fn entry(file_id: usize, search_start: usize, first_occ: Option<usize>) -> SearchResult {
    SearchResult { file_id, search_start, first_occ }
}

#[test]
fn fresh_engine_lists_candidates_in_given_order() {
    let engine = engine_of(&["main.rs", "setup.rs", "lib.rs"]);
    assert_eq!(engine.results_size(), 3);
    assert_eq!(engine.get_items(2), vec!["main.rs", "setup.rs"]);
    assert_eq!(engine.get_items(3), vec!["main.rs", "setup.rs", "lib.rs"]);
    assert_eq!(engine.get_items(10), vec!["main.rs", "setup.rs", "lib.rs"]);
    assert_eq!(engine.get_items(0), Vec::<String>::new());
    assert_eq!(
        engine.results(),
        &vec![entry(0, 0, None), entry(1, 0, None), entry(2, 0, None)]
    );
}

#[test]
fn typing_s_keeps_all_three_and_orders_by_length() {
    let mut engine = engine_of(&["main.rs", "setup.rs", "lib.rs"]);
    engine.push_char('s');
    assert_eq!(engine.results_size(), 3);
    assert_eq!(engine.get_items(3), vec!["lib.rs", "main.rs", "setup.rs"]);
    assert_eq!(
        engine.results(),
        &vec![entry(2, 6, Some(5)), entry(0, 7, Some(6)), entry(1, 1, Some(0))]
    );
}

#[test]
fn typing_se_leaves_only_setup() {
    let mut engine = engine_of(&["main.rs", "setup.rs", "lib.rs"]);
    type_query(&mut engine, "se");
    assert_eq!(engine.get_items(3), vec!["setup.rs"]);
    assert_eq!(engine.results(), &vec![entry(1, 2, Some(0))]);
}

#[test]
fn pop_on_base_layer_changes_nothing() {
    let mut engine = engine_of(&["main.rs", "setup.rs", "lib.rs"]);
    let size = engine.results_size();
    engine.pop_char();
    assert_eq!(engine.results_size(), size);
    assert_eq!(engine.get_items(3), vec!["main.rs", "setup.rs", "lib.rs"]);
    engine.pop_char();
    engine.pop_char();
    assert_eq!(engine.results_size(), 3);
    engine.push_char('m');
    assert_eq!(engine.get_items(3), vec!["main.rs"]);
}

#[test]
fn pop_after_push_restores_the_layer() {
    let mut engine = engine_of(&["src/app.rs", "src/engine.rs", "Cargo.toml", "src/viewer.rs"]);
    type_query(&mut engine, "sr");
    let before = engine.results().clone();
    let names = engine.get_items(10);
    for ch in ['e', 'z', '/', 'r', 's'] {
        engine.push_char(ch);
        engine.pop_char();
        assert_eq!(engine.results(), &before);
        assert_eq!(engine.get_items(10), names);
    }
}

#[test]
fn pop_walks_back_through_every_layer() {
    let mut engine = engine_of(&["alpha", "alps", "lap", "pal"]);
    let mut layers = vec![engine.results().clone()];
    for ch in "alp".chars() {
        engine.push_char(ch);
        layers.push(engine.results().clone());
    }
    while layers.len() > 1 {
        assert_eq!(engine.results(), layers.last().unwrap());
        layers.pop();
        engine.pop_char();
    }
    assert_eq!(engine.results(), &layers[0]);
}

#[test]
fn longer_query_matches_a_subset() {
    let names = ["src/app.rs", "src/engine.rs", "Cargo.toml", "src/viewer.rs", "README.md"];
    let mut engine = engine_of(&names);
    let mut previous: Vec<usize> = engine.results().iter().map(|e| e.file_id).collect();
    for ch in "rer.s".chars() {
        engine.push_char(ch);
        let current: Vec<usize> = engine.results().iter().map(|e| e.file_id).collect();
        for id in &current {
            assert!(previous.contains(id));
        }
        assert!(current.len() <= previous.len());
        previous = current;
    }
}

#[test]
fn top_of_longer_query_need_not_be_in_top_of_shorter() {
    let mut engine = engine_of(&["ab", "b"]);
    assert_eq!(engine.get_items(1), vec!["ab"]);
    engine.push_char('b');
    assert_eq!(engine.get_items(1), vec!["b"]);
    assert_eq!(engine.get_items(2), vec!["b", "ab"]);
}

#[test]
fn tighter_cluster_ranks_first() {
    let mut engine = engine_of(&["a__b", "a_b", "ab", "xxab"]);
    type_query(&mut engine, "ab");
    assert_eq!(engine.get_items(4), vec!["ab", "xxab", "a_b", "a__b"]);
    assert_eq!(
        engine.results(),
        &vec![
            entry(2, 2, Some(0)),
            entry(3, 4, Some(2)),
            entry(1, 3, Some(0)),
            entry(0, 4, Some(0)),
        ]
    );
}

#[test]
fn equal_span_is_ordered_by_length() {
    let mut engine = engine_of(&["long_name_a", "a", "mid_a"]);
    engine.push_char('a');
    assert_eq!(engine.get_items(3), vec!["a", "mid_a", "long_name_a"]);
}

#[test]
fn equal_keys_keep_their_order() {
    let mut engine = engine_of(&["xa", "ya", "za", "a", "wa"]);
    engine.push_char('a');
    assert_eq!(engine.get_items(5), vec!["a", "xa", "ya", "za", "wa"]);
    let mut reversed = engine_of(&["wa", "a", "za", "ya", "xa"]);
    reversed.push_char('a');
    assert_eq!(reversed.get_items(5), vec!["a", "wa", "za", "ya", "xa"]);
}

#[test]
fn equal_keys_keep_the_order_of_the_layer_before() {
    let mut engine = engine_of(&["b_a_", "a_", "ba"]);
    engine.push_char('a');
    assert_eq!(engine.get_items(3), vec!["a_", "ba", "b_a_"]);
    engine.push_char('_');
    assert_eq!(engine.get_items(3), vec!["a_", "b_a_"]);
}

#[test]
fn same_typing_gives_same_ranking() {
    let names = ["src/app.rs", "src/engine.rs", "Cargo.toml", "src/viewer.rs", "README.md"];
    let mut first = engine_of(&names);
    let mut second = engine_of(&names);
    type_query(&mut first, "re");
    type_query(&mut second, "re");
    assert_eq!(first.results(), second.results());
    assert_eq!(first.get_items(5), second.get_items(5));
}

#[test]
fn unmatched_character_empties_the_layer() {
    let mut engine = engine_of(&["main.rs", "setup.rs", "lib.rs"]);
    engine.push_char('q');
    assert_eq!(engine.results_size(), 0);
    assert_eq!(engine.get_items(5), Vec::<String>::new());
    engine.push_char('m');
    assert_eq!(engine.results_size(), 0);
    engine.pop_char();
    engine.pop_char();
    assert_eq!(engine.results_size(), 3);
}

#[test]
fn engine_without_candidates() {
    let mut engine = Engine::new(Vec::new());
    assert_eq!(engine.results_size(), 0);
    assert_eq!(engine.get_items(3), Vec::<String>::new());
    engine.push_char('a');
    assert_eq!(engine.results_size(), 0);
    engine.pop_char();
    engine.pop_char();
    assert_eq!(engine.results_size(), 0);
}

#[test]
fn each_character_needs_its_own_occurrence() {
    let mut engine = engine_of(&["a", "aa", "aba", "b"]);
    type_query(&mut engine, "aa");
    assert_eq!(engine.get_items(4), vec!["aa", "aba"]);
    assert_eq!(engine.results(), &vec![entry(1, 2, Some(0)), entry(2, 3, Some(0))]);
    engine.push_char('a');
    assert_eq!(engine.results_size(), 0);
}

#[test]
fn characters_match_in_order_only() {
    let mut engine = engine_of(&["ba", "ab"]);
    type_query(&mut engine, "ab");
    assert_eq!(engine.get_items(2), vec!["ab"]);
}

#[test]
fn search_is_case_sensitive() {
    let mut engine = engine_of(&["README.md", "readme.txt"]);
    engine.push_char('R');
    assert_eq!(engine.get_items(2), vec!["README.md"]);
}

#[test]
fn positions_count_characters() {
    let mut engine = engine_of(&["écrit.rs", "zèbre"]);
    engine.push_char('r');
    assert_eq!(engine.get_items(2), vec!["zèbre", "écrit.rs"]);
    assert_eq!(engine.results(), &vec![entry(1, 4, Some(3)), entry(0, 3, Some(2))]);
    engine.push_char('è');
    assert_eq!(engine.results_size(), 0);
    engine.pop_char();
    engine.push_char('e');
    assert_eq!(engine.results(), &vec![entry(1, 5, Some(3))]);
}

#[test]
fn truncates_to_the_number_asked_for() {
    let mut engine = engine_of(&["a1", "a22", "a333", "a4444"]);
    engine.push_char('a');
    assert_eq!(engine.get_items(2), vec!["a1", "a22"]);
    assert_eq!(engine.get_items(usize::MAX), vec!["a1", "a22", "a333", "a4444"]);
}

#[test]
fn duplicate_candidates_are_kept_apart() {
    let mut engine = engine_of(&["same", "same"]);
    engine.push_char('s');
    assert_eq!(engine.get_items(5), vec!["same", "same"]);
    assert_eq!(engine.results(), &vec![entry(0, 1, Some(0)), entry(1, 1, Some(0))]);
}

/// The layer after `query`, computed with std's string search and stable
/// sort on ASCII candidates.
fn layer_by_std(names: &[&str], query: &str) -> Vec<SearchResult> {
    let mut layer: Vec<SearchResult> = (0..names.len()).map(|id| entry(id, 0, None)).collect();
    for ch in query.chars() {
        let mut next = Vec::new();
        for e in &layer {
            if let Some(rel) = names[e.file_id][e.search_start..].find(ch) {
                let found = e.search_start + rel;
                let first = e.first_occ.map_or(found, |f| f.min(found));
                next.push(entry(e.file_id, found + 1, Some(first)));
            }
        }
        next.sort_by(|a, b| {
            let span_a = a.search_start - a.first_occ.unwrap();
            let span_b = b.search_start - b.first_occ.unwrap();
            if span_a == span_b {
                names[a.file_id].len().cmp(&names[b.file_id].len())
            } else {
                span_a.cmp(&span_b)
            }
        });
        layer = next;
    }
    layer
}

#[test]
fn layers_agree_with_std_search_and_sort() {
    let names = [
        "./src/app.rs", "./src/engine.rs", "./src/main.rs", "./src/setup.rs", "./src/viewer.rs",
        "./Cargo.toml", "./Cargo.lock", "./README.md", "./target/debug/fzf", "./target/release/fzf",
        "./tests/engine.rs", "./tests/viewer.rs", "./.gitignore", "./a", "./aa", "./aaa", "./b/a/b/a",
    ];
    let queries = ["", "s", "rs", "src", "e.rs", "fzf", "aa", "aaa", "aaaa", "bab", "/./", "t/e", "Carg", "zz", "..", "engine.rs"];
    for query in queries {
        let mut engine = engine_of(&names);
        let mut typed = String::new();
        for ch in query.chars() {
            engine.push_char(ch);
            typed.push(ch);
            assert_eq!(engine.results(), &layer_by_std(&names, &typed));
        }
        let expected = layer_by_std(&names, query);
        assert_eq!(engine.results(), &expected);
        assert_eq!(engine.results_size(), expected.len());
        let expected_names: Vec<&str> = expected.iter().map(|e| names[e.file_id]).collect();
        assert_eq!(engine.get_items(usize::MAX), expected_names);
        assert_eq!(engine.get_items(3), expected_names[..expected_names.len().min(3)]);
        while !typed.is_empty() {
            typed.pop();
            engine.pop_char();
            assert_eq!(engine.results(), &layer_by_std(&names, &typed));
        }
    }
}
