use kana_kanji_core::{
    ComposingText, Dictionary, DictionaryEntry, EngineError, KanaKanjiConverter, Scorer,
};

fn entry(key: &str, surface: &str, cost: u32, word_class: u32) -> DictionaryEntry {
    DictionaryEntry {
        key: key.to_string(),
        surface: surface.to_string(),
        cost,
        word_class,
    }
}

fn flat_scorer() -> Scorer {
    Scorer::new(vec![0]).unwrap()
}

fn buffer_of(text: &str) -> ComposingText {
    let mut buf = ComposingText::new();
    buf.insert_at_cursor_position(text).unwrap();
    buf
}

#[test]
fn dictionary_rejects_empty_reading() {
    let r = Dictionary::new(vec![entry("", "x", 1, 0)]);
    assert!(matches!(r, Err(EngineError::DictionaryLoadError)));
}

#[test]
fn dictionary_rejects_non_phonetic_reading() {
    let r = Dictionary::new(vec![entry("Seido", "制度", 1, 0)]);
    assert!(matches!(r, Err(EngineError::DictionaryLoadError)));
}

#[test]
fn dictionary_lookup_returns_homophones_in_order() {
    let dict = Dictionary::new(vec![
        entry("seido", "制度", 1, 0),
        entry("kana", "かな", 3, 0),
        entry("seido", "精度", 2, 0),
    ])
    .unwrap();
    let hits = dict.lookup("seido");
    assert_eq!(hits.len(), 2);
    assert_eq!(hits[0].surface, "制度");
    assert_eq!(hits[1].surface, "精度");
    assert!(dict.lookup("nai").is_empty());
}

#[test]
fn scorer_rejects_empty_weights() {
    let r = Scorer::new(vec![]);
    assert!(matches!(r, Err(EngineError::WeightLoadError)));
}

#[test]
fn round_trip_seido_ranked_by_cost() {
    let dict = Dictionary::new(vec![
        entry("seido", "制度", 1, 0),
        entry("seido", "精度", 2, 0),
    ])
    .unwrap();
    let scorer = flat_scorer();
    let buf = buffer_of("seido");
    let mut session = KanaKanjiConverter::new();
    let cands = session.request_candidates(&buf, "", &dict, &scorer);
    assert_eq!(cands.len(), 2);
    assert_eq!(cands[0].text, "制度");
    assert_eq!(cands[0].corresponding_count, 5);
    assert_eq!(cands[1].text, "精度");
    assert_eq!(cands[1].corresponding_count, 5);
}

#[test]
fn partial_coverage_never_exceeds_buffer_length() {
    let dict = Dictionary::new(vec![entry("tem", "テム", 4, 0)]).unwrap();
    let scorer = flat_scorer();
    let buf = buffer_of("tempu");
    let mut session = KanaKanjiConverter::new();
    let cands = session.request_candidates(&buf, "", &dict, &scorer);
    assert!(cands.iter().any(|c| c.corresponding_count == 3));
    for c in &cands {
        assert!(1 <= c.corresponding_count);
        assert!(c.corresponding_count <= 5);
    }
}

#[test]
fn empty_buffer_yields_empty_candidate_list() {
    let dict = Dictionary::new(vec![entry("seido", "制度", 1, 0)]).unwrap();
    let scorer = flat_scorer();
    let buf = ComposingText::new();
    let mut session = KanaKanjiConverter::new();
    let cands = session.request_candidates(&buf, "", &dict, &scorer);
    assert!(cands.is_empty());
}

#[test]
fn multi_segment_paths_concatenate_surfaces() {
    let dict = Dictionary::new(vec![
        entry("sei", "正", 2, 0),
        entry("do", "度", 2, 0),
        entry("seido", "制度", 10, 0),
    ])
    .unwrap();
    let scorer = flat_scorer();
    let buf = buffer_of("seido");
    let mut session = KanaKanjiConverter::new();
    let cands = session.request_candidates(&buf, "", &dict, &scorer);
    assert_eq!(cands.len(), 3);
    assert_eq!(cands[0].text, "正");
    assert_eq!(cands[0].corresponding_count, 3);
    assert_eq!(cands[1].text, "正度");
    assert_eq!(cands[1].corresponding_count, 5);
    assert_eq!(cands[2].text, "制度");
    assert_eq!(cands[2].corresponding_count, 5);
}

#[test]
fn equal_cost_prefers_more_coverage_then_smaller_surface() {
    let dict = Dictionary::new(vec![
        entry("ab", "b", 2, 0),
        entry("a", "c", 2, 0),
        entry("ab", "a", 2, 0),
    ])
    .unwrap();
    let scorer = flat_scorer();
    let buf = buffer_of("ab");
    let mut session = KanaKanjiConverter::new();
    let cands = session.request_candidates(&buf, "", &dict, &scorer);
    assert_eq!(cands.len(), 3);
    assert_eq!(cands[0].text, "a");
    assert_eq!(cands[0].corresponding_count, 2);
    assert_eq!(cands[1].text, "b");
    assert_eq!(cands[1].corresponding_count, 2);
    assert_eq!(cands[2].text, "c");
    assert_eq!(cands[2].corresponding_count, 1);
}

#[test]
fn repeated_requests_are_deterministic() {
    let dict = Dictionary::new(vec![
        entry("sei", "正", 2, 1),
        entry("do", "度", 2, 2),
        entry("seido", "制度", 3, 3),
        entry("sei", "精", 2, 4),
    ])
    .unwrap();
    let scorer = Scorer::new(vec![5, 1, 4, 1, 5, 9, 2, 6]).unwrap();
    let buf = buffer_of("seido");
    let mut session = KanaKanjiConverter::new();
    let first = session.request_candidates(&buf, "です", &dict, &scorer);
    let second = session.request_candidates(&buf, "です", &dict, &scorer);
    assert_eq!(first, second);
}

#[test]
fn context_conditions_the_ranking_deterministically() {
    let dict = Dictionary::new(vec![
        entry("sei", "正", 2, 1),
        entry("sei", "精", 2, 4),
    ])
    .unwrap();
    let scorer = Scorer::new(vec![5, 1, 4, 1, 5, 9, 2, 6]).unwrap();
    let buf = buffer_of("sei");
    let mut session = KanaKanjiConverter::new();
    let with_ctx = session.request_candidates(&buf, "です", &dict, &scorer);
    let with_ctx_again = session.request_candidates(&buf, "です", &dict, &scorer);
    assert_eq!(with_ctx, with_ctx_again);
    assert_eq!(with_ctx.len(), 2);
}

#[test]
fn class_transition_weights_and_context_condition_the_ranking() {
    let dict = Dictionary::new(vec![
        entry("a", "x", 5, 0),
        entry("a", "y", 1, 1),
    ])
    .unwrap();
    let buf = buffer_of("a");
    let mut session = KanaKanjiConverter::new();

    let flat = flat_scorer();
    let cands = session.request_candidates(&buf, "", &dict, &flat);
    assert_eq!(cands[0].text, "y");
    assert_eq!(cands[1].text, "x");

    let weighted = Scorer::new(vec![0, 10]).unwrap();
    let cands = session.request_candidates(&buf, "", &dict, &weighted);
    assert_eq!(cands[0].text, "x");
    assert_eq!(cands[1].text, "y");

    let cands = session.request_candidates(&buf, "a", &dict, &weighted);
    assert_eq!(cands[0].text, "y");
    assert_eq!(cands[1].text, "x");
}

#[test]
fn candidate_list_is_cut_to_the_candidate_limit() {
    let mut entries = Vec::new();
    for cost in 0..30u32 {
        let surface = format!("s{}", cost);
        entries.push(entry("a", &surface, cost, 0));
    }
    let dict = Dictionary::new(entries).unwrap();
    let scorer = flat_scorer();
    let buf = buffer_of("a");
    let mut session = KanaKanjiConverter::new();
    let cands = session.request_candidates(&buf, "", &dict, &scorer);
    assert_eq!(cands.len(), 20);
    assert_eq!(cands[0].text, "s0");
    assert_eq!(cands[19].text, "s19");
}

#[test]
fn second_request_supersedes_the_first() {
    let dict = Dictionary::new(vec![entry("a", "x", 1, 0)]).unwrap();
    let scorer = flat_scorer();
    let buf = buffer_of("a");
    let mut session = KanaKanjiConverter::new();
    let first_generation = session.search_generation();
    let _first = session.request_candidates(&buf, "", &dict, &scorer);
    let first_search = session.search_generation();
    assert!(session.search_is_current(first_search));
    let _second = session.request_candidates(&buf, "", &dict, &scorer);
    assert!(!session.search_is_current(first_search));
    assert!(!session.search_is_current(first_generation));
}

#[test]
fn stop_composition_cancels_the_outstanding_search() {
    let dict = Dictionary::new(vec![entry("a", "x", 1, 0)]).unwrap();
    let scorer = flat_scorer();
    let mut buf = buffer_of("a");
    let mut session = KanaKanjiConverter::new();
    let _cands = session.request_candidates(&buf, "", &dict, &scorer);
    let outstanding = session.search_generation();
    session.stop_composition(&mut buf);
    assert!(!session.search_is_current(outstanding));
    assert_eq!(buf.len(), 0);
}
