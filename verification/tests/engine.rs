use karukan::engine::{
    AnnotatedCandidate, Candidate, CandidateBuilder, CandidateList, CandidateSource,
    ConversionStrategy, DictCandidate, DictEntry, Dictionary, EngineAction, EngineResult,
    InputMethodEngine, InputMode, InputState, KanaKanjiConverter, KeyEvent, KeyModifiers, Keysym,
    LearnedEntry, LearningCache, ModelAnswer, RewriteRule, SymbolName,
};
use karukan::engine::candidate::width_annotation;
use karukan::engine::clock::low_ms;

fn plain(c: char) -> KeyEvent {
    KeyEvent::new(Keysym::from_char(c), KeyModifiers::none())
}

fn named(k: Keysym) -> KeyEvent {
    KeyEvent::new(k, KeyModifiers::none())
}

fn with_shift(k: Keysym) -> KeyEvent {
    KeyEvent::new(k, KeyModifiers { shift_key: true, control_key: false, alt_key: false })
}

fn with_control(c: char) -> KeyEvent {
    let modifiers = KeyModifiers { shift_key: false, control_key: true, alt_key: false };
    KeyEvent::new(Keysym::from_char(c), modifiers)
}

fn type_text(engine: &mut InputMethodEngine, keys: &str) {
    for c in keys.chars() {
        assert!(engine.process_key(&plain(c)).consumed);
    }
}

fn dictionary(entries: &[(&str, &[(&str, i32)])]) -> Dictionary {
    Dictionary {
        entries: entries
            .iter()
            .map(|(reading, candidates)| DictEntry {
                reading: reading.to_string(),
                candidates: candidates
                    .iter()
                    .map(|(surface, score)| DictCandidate {
                        surface: surface.to_string(),
                        score: *score,
                    })
                    .collect(),
            })
            .collect(),
    }
}

fn cache(entries: &[(&str, &str)]) -> LearningCache {
    LearningCache {
        entries: entries
            .iter()
            .map(|(reading, surface)| LearnedEntry {
                reading: reading.to_string(),
                surface: surface.to_string(),
            })
            .collect(),
    }
}

fn answer(katakana: &str, n: usize, texts: &[&str], elapsed_ms: u64) -> ModelAnswer {
    ModelAnswer {
        katakana: katakana.to_string(),
        context: String::new(),
        num_candidates: n,
        texts: texts.iter().map(|t| t.to_string()).collect(),
        elapsed_ms,
    }
}

fn model(name: &str, answers: Vec<ModelAnswer>) -> KanaKanjiConverter {
    KanaKanjiConverter { display_name: name.to_string(), answers }
}

fn candidates(engine: &InputMethodEngine) -> &CandidateList {
    match engine.state() {
        InputState::Conversion { candidates, .. } => candidates,
        other => panic!("no conversion: {:?}", other),
    }
}

fn shown_texts(engine: &InputMethodEngine) -> Vec<String> {
    candidates(engine).candidates().iter().map(|c| c.text.clone()).collect()
}

fn selected(engine: &InputMethodEngine) -> String {
    candidates(engine).selected_text().unwrap().to_string()
}

fn committed(result: &EngineResult) -> Option<String> {
    result.actions.iter().find_map(|a| match a {
        EngineAction::Commit(t) => Some(t.clone()),
        _ => None,
    })
}

fn annotated(text: &str, source: CandidateSource) -> AnnotatedCandidate {
    AnnotatedCandidate::new(text.to_string(), source)
}

fn pairs(list: &[AnnotatedCandidate]) -> Vec<(&str, CandidateSource)> {
    list.iter().map(|c| (c.text.as_str(), c.source)).collect()
}

#[test]
fn without_sources_the_reading_is_offered_in_both_scripts() {
    let mut engine = InputMethodEngine::new();
    type_text(&mut engine, "ai");
    engine.process_key(&named(Keysym::SPACE));
    assert_eq!(shown_texts(&engine), vec!["あい", "アイ"]);
    let list = candidates(&engine).candidates();
    assert_eq!(list[0].description.as_deref(), Some("[全]ひらがな"));
    assert_eq!(list[1].description.as_deref(), Some("[全]カタカナ"));
    assert_eq!(list[0].reading.as_deref(), Some("あい"));
    assert_eq!(list[0].source_label, None);
}

#[test]
fn candidates_come_in_order_of_their_sources() {
    let mut engine = InputMethodEngine::new();
    engine.learning = Some(cache(&[("あい", "会い")]));
    engine.dicts.user = Some(dictionary(&[("あい", &[("亜衣", 0)])]));
    engine.dicts.system = Some(dictionary(&[("あい", &[("藍", 20), ("愛", 5), ("亜衣", 1)])]));
    engine.converters.kanji = Some(model("main", vec![answer("アイ", 9, &["哀", "愛"], 3)]));
    engine.converters.rewriters.rules = vec![RewriteRule {
        input: "あい".to_string(),
        variant: "ｱｲ".to_string(),
        description: None,
    }];
    let list = engine.build_conversion_candidates("あい", 9, false);
    assert_eq!(
        pairs(&list),
        vec![
            ("会い", CandidateSource::Learning),
            ("亜衣", CandidateSource::UserDictionary),
            ("哀", CandidateSource::Model),
            ("愛", CandidateSource::Model),
            ("藍", CandidateSource::Dictionary),
            ("あい", CandidateSource::Fallback),
            ("アイ", CandidateSource::Fallback),
            ("ｱｲ", CandidateSource::Rewriter),
        ]
    );
    assert_eq!(list[7].description.as_deref(), Some("[半]カタカナ"));
    let list = engine.build_conversion_candidates("あい", 9, true);
    assert_eq!(list[0].text, "亜衣");
    assert!(list.iter().all(|c| c.source != CandidateSource::Learning));
}

#[test]
fn the_system_dictionary_comes_before_the_reading() {
    let mut engine = InputMethodEngine::new();
    engine.dicts.system = Some(dictionary(&[("あい", &[("愛", 5)])]));
    let list = engine.build_conversion_candidates("あい", 9, false);
    assert_eq!(
        pairs(&list),
        vec![
            ("愛", CandidateSource::Dictionary),
            ("あい", CandidateSource::Fallback),
            ("アイ", CandidateSource::Fallback),
        ]
    );
}

#[test]
fn symbols_carry_their_names() {
    let mut engine = InputMethodEngine::new();
    engine.converters.symbols.names =
        vec![SymbolName { symbol: "「".to_string(), name: "始めかぎ括弧".to_string() }];
    let list = engine.build_conversion_candidates("「", 9, false);
    assert_eq!(pairs(&list), vec![("「", CandidateSource::Fallback)]);
    assert_eq!(list[0].description.as_deref(), Some("始めかぎ括弧"));
}

#[test]
fn emoji_mode_offers_only_what_matches_and_learns_nothing() {
    let mut engine = InputMethodEngine::new();
    engine.learning = Some(LearningCache::new());
    engine.input_mode = InputMode::Emoji;
    engine.converters.rewriters.rules = vec![RewriteRule {
        input: ":smile".to_string(),
        variant: "😄".to_string(),
        description: Some("smile".to_string()),
    }];
    type_text(&mut engine, ":smile");
    engine.process_key(&named(Keysym::SPACE));
    assert_eq!(shown_texts(&engine), vec!["😄"]);
    let r = engine.process_key(&named(Keysym::RETURN));
    assert_eq!(committed(&r).as_deref(), Some("😄"));
    assert_eq!(engine.input_mode, InputMode::Hiragana);
    assert!(engine.learning.as_ref().unwrap().entries.is_empty());

    engine.input_mode = InputMode::Emoji;
    type_text(&mut engine, ":xyz");
    let r = engine.process_key(&named(Keysym::DOWN));
    assert!(r.consumed);
    assert!(matches!(engine.state(), InputState::Composing { .. }));
    assert_eq!(engine.preedit().unwrap().text(), ":xyz");
}

#[test]
fn dictionaries_are_searched_up_to_the_limit() {
    let mut engine = InputMethodEngine::new();
    engine.dicts.user = Some(dictionary(&[("か", &[("火", 9), ("蚊", 1), ("火", 0)])]));
    engine.dicts.system =
        Some(dictionary(&[("か", &[("課", 30), ("火", 2), ("可", -4), ("科", 30)])]));
    let all = engine.search_dictionaries("か", usize::MAX);
    assert_eq!(
        pairs(&all),
        vec![
            ("火", CandidateSource::UserDictionary),
            ("蚊", CandidateSource::UserDictionary),
            ("可", CandidateSource::Dictionary),
            ("課", CandidateSource::Dictionary),
            ("科", CandidateSource::Dictionary),
        ]
    );
    assert_eq!(pairs(&engine.search_dictionaries("か", 3)), pairs(&all)[..3].to_vec());
    assert!(engine.search_dictionaries("き", 3).is_empty());
    assert!(engine.search_dictionaries("か", 0).is_empty());
    let page = engine.lookup_dict_candidates("か");
    assert_eq!(page.len(), 5);
    assert_eq!(page[0].source_label.as_deref(), Some(CandidateSource::UserDictionary.label()));
    assert_eq!(page[0].reading.as_deref(), Some("か"));
}

#[test]
fn learning_offers_a_few_choices_exact_ones_first() {
    let mut engine = InputMethodEngine::new();
    assert!(engine.lookup_learning_candidates("あ").is_empty());
    engine.learning = Some(cache(&[
        ("あい", "愛"),
        ("あいうえお", "五十音"),
        ("あい", "藍"),
        ("あいさ", "挨拶"),
        ("あいこ", "愛"),
        ("あいて", "相手"),
    ]));
    let list = engine.lookup_learning_candidates("あい");
    let found: Vec<(&str, &str)> =
        list.iter().map(|c| (c.text.as_str(), c.reading.as_deref().unwrap())).collect();
    assert_eq!(found, vec![("愛", "あい"), ("藍", "あい"), ("挨拶", "あいさ")]);
    assert!(list.iter().all(|c| c.source_label.as_deref() == Some("📝 学習")));
    // More than twice as long as what was typed
    assert!(engine
        .lookup_learning_candidates("あ")
        .iter()
        .all(|c| c.reading.as_deref().unwrap().chars().count() <= 2));
}

#[test]
fn variants_are_listed_for_the_reading() {
    let mut engine = InputMethodEngine::new();
    engine.converters.rewriters.rules = vec![RewriteRule {
        input: "「".to_string(),
        variant: "『".to_string(),
        description: Some("二重".to_string()),
    }];
    let list: Vec<Candidate> = engine.lookup_rewriter_variants("「");
    assert_eq!(list.len(), 1);
    assert_eq!(list[0].text, "『");
    assert_eq!(list[0].description.as_deref(), Some("二重"));
    assert_eq!(list[0].reading.as_deref(), Some("「"));
    assert!(engine.lookup_rewriter_variants("」").is_empty());
}

#[test]
fn merging_keeps_the_first_of_equal_texts() {
    let merged = InputMethodEngine::merge_candidates_dedup(
        vec!["a".to_string(), "b".to_string(), "a".to_string()],
        vec!["b".to_string(), "c".to_string(), "d".to_string()],
        3,
    );
    assert_eq!(merged, vec!["a", "b", "c"]);
    assert!(InputMethodEngine::merge_candidates_dedup(
        vec!["a".to_string()],
        vec!["b".to_string()],
        0
    )
    .is_empty());
}

#[test]
fn the_strategy_depends_on_the_models() {
    let mut engine = InputMethodEngine::new();
    engine.converters.kanji = Some(model("main", vec![]));
    assert_eq!(engine.determine_strategy("あい", 1), ConversionStrategy::MainModelOnly);
    assert_eq!(
        engine.determine_strategy("あい", 5),
        ConversionStrategy::MainModelBeam { beam_width: 5 }
    );
    engine.converters.light_kanji = Some(model("light", vec![]));
    assert_eq!(engine.determine_strategy("あい", 5), ConversionStrategy::ParallelBeam { beam_width: 5 });
    engine.adaptive_use_light_model = true;
    assert_eq!(engine.determine_strategy("あい", 5), ConversionStrategy::LightModelOnly);
}

#[test]
fn both_models_run_together() {
    let mut engine = InputMethodEngine::new();
    engine.config.max_latency_ms = 10;
    engine.converters.kanji = Some(model("main", vec![answer("アイ", 1, &["愛"], 30)]));
    engine.converters.light_kanji =
        Some(model("light", vec![answer("アイ", 3, &["藍", "愛", "哀", "相"], 4)]));
    let texts = engine.run_kana_kanji_conversion("あい", "", 3);
    assert_eq!(texts, vec!["愛", "藍", "哀"]);
    assert_eq!(engine.metrics.model_name, "main+light");
    assert_eq!(engine.metrics.conversion_ms, 30);
    assert!(engine.adaptive_use_light_model);
    assert!(engine.requests.is_empty());

    // The light model takes over, and its answer is not known yet.
    let texts = engine.run_kana_kanji_conversion("あい", "", 3);
    assert!(texts.is_empty());
    assert_eq!(engine.metrics.model_name, "light");
    assert_eq!(engine.requests.len(), 1);
    assert!(engine.requests[0].light);
    assert_eq!(engine.requests[0].katakana, "アイ");
    assert_eq!(engine.requests[0].num_candidates, 1);
}

#[test]
fn readings_without_kana_reach_no_model() {
    let mut engine = InputMethodEngine::new();
    engine.converters.kanji = Some(model("main", vec![answer("「", 1, &["w"], 1)]));
    assert!(engine.run_kana_kanji_conversion("「", "", 1).is_empty());
    assert!(engine.requests.is_empty());
    assert_eq!(engine.metrics.model_name, "");
}

#[test]
fn the_models_get_the_end_of_the_context() {
    let mut engine = InputMethodEngine::new();
    engine.context = "あいうえおかきくけこさし".to_string();
    assert_eq!(engine.truncate_context_for_api(), "うえおかきくけこさし");
    engine.context = "あ".to_string();
    assert_eq!(engine.truncate_context_for_api(), "あ");
    engine.config.max_api_context_len = 0;
    assert_eq!(engine.truncate_context_for_api(), "");
}

#[test]
fn walking_through_the_candidates() {
    let mut engine = InputMethodEngine::new();
    engine.dicts.user = Some(dictionary(&[(
        "あ",
        &[
            ("一", 0),
            ("二", 0),
            ("三", 0),
            ("四", 0),
            ("五", 0),
            ("六", 0),
            ("七", 0),
            ("八", 0),
            ("九", 0),
            ("十", 0),
        ],
    )]));
    type_text(&mut engine, "a");
    let r = engine.process_key(&named(Keysym::SPACE));
    assert!(r
        .actions
        .iter()
        .any(|a| matches!(a, EngineAction::UpdateAuxText(t) if t == "あ [1/2] 👤 ユーザー辞書")));
    assert_eq!(selected(&engine), "一");
    engine.process_key(&named(Keysym::TAB));
    assert_eq!(selected(&engine), "二");
    engine.process_key(&with_control('n'));
    assert_eq!(selected(&engine), "三");
    engine.process_key(&with_control('P'));
    engine.process_key(&named(Keysym::UP));
    engine.process_key(&named(Keysym::UP));
    assert_eq!(selected(&engine), "ア");
    engine.process_key(&named(Keysym::DOWN));
    assert_eq!(selected(&engine), "一");
    let r = engine.process_key(&named(Keysym::PAGE_DOWN));
    assert!(r
        .actions
        .iter()
        .any(|a| matches!(a, EngineAction::UpdateAuxText(t) if t == "あ [2/2] 👤 ユーザー辞書")));
    assert_eq!(selected(&engine), "十");
    engine.process_key(&named(Keysym::PAGE_DOWN));
    assert_eq!(selected(&engine), "十");
    engine.process_key(&named(Keysym::PAGE_UP));
    assert_eq!(selected(&engine), "一");
    assert_eq!(engine.preedit().unwrap().text(), "一");
}

#[test]
fn a_place_on_the_page_is_selected_and_committed() {
    let mut engine = InputMethodEngine::new();
    assert!(!engine.select_candidate_on_page(0).consumed);
    type_text(&mut engine, "ai");
    assert!(!engine.select_candidate_on_page(0).consumed);
    assert_eq!(engine.preedit().unwrap().text(), "あい");
    engine.process_key(&named(Keysym::SPACE));

    let r = engine.select_candidate_on_page(5);
    assert!(r.consumed);
    assert!(r.actions.is_empty());
    assert!(matches!(engine.state(), InputState::Conversion { .. }));

    let mut other = engine.clone();
    let r = engine.select_candidate_on_page(1);
    assert_eq!(committed(&r).as_deref(), Some("アイ"));
    assert!(matches!(engine.state(), InputState::Empty));
    assert!(engine.segments.is_empty());
    let s = other.process_key(&plain('2'));
    assert_eq!(committed(&s), committed(&r));
}

#[test]
fn several_segments_are_committed_together_and_learned() {
    let mut engine = InputMethodEngine::new();
    engine.learning = Some(LearningCache::new());
    engine.dicts.system = Some(dictionary(&[("あい", &[("愛", 1)]), ("うえ", &[("上", 1)])]));
    type_text(&mut engine, "aiue");
    engine.process_key(&named(Keysym::SPACE));
    engine.process_key(&with_shift(Keysym::LEFT));
    engine.process_key(&with_shift(Keysym::LEFT));
    assert_eq!(engine.segments[0].reading, "あい");
    assert_eq!(engine.segments[1].reading, "うえ");
    assert_eq!(selected(&engine), "愛");
    engine.process_key(&named(Keysym::SPACE));
    assert_eq!(selected(&engine), "あい");
    engine.process_key(&named(Keysym::UP));
    engine.process_key(&named(Keysym::RIGHT));
    assert!(!engine.process_key(&named(Keysym::RIGHT)).consumed);
    assert_eq!(engine.preedit().unwrap().text(), "愛上");
    let r = engine.process_key(&named(Keysym::RETURN));
    assert!(matches!(r.actions[0], EngineAction::UpdatePreedit(_)));
    assert!(matches!(r.actions[1], EngineAction::HideCandidates));
    assert!(matches!(r.actions[2], EngineAction::HideAuxText));
    assert_eq!(committed(&r).as_deref(), Some("愛上"));
    let learned = engine.learning.as_ref().unwrap();
    assert_eq!(learned.lookup("あい"), vec!["愛"]);
    assert_eq!(learned.lookup("うえ"), vec!["上"]);

    // The choice comes first the next time.
    type_text(&mut engine, "ai");
    engine.process_key(&named(Keysym::SPACE));
    assert_eq!(selected(&engine), "愛");
}

#[test]
fn borders_stop_at_the_ends() {
    let mut engine = InputMethodEngine::new();
    type_text(&mut engine, "ai");
    engine.process_key(&named(Keysym::SPACE));
    assert!(!engine.process_key(&named(Keysym::LEFT)).consumed);
    let r = engine.process_key(&with_shift(Keysym::RIGHT));
    assert!(r.consumed);
    assert!(r.actions.is_empty());
    engine.process_key(&with_shift(Keysym::LEFT));
    let r = engine.process_key(&with_shift(Keysym::LEFT));
    assert!(r.consumed);
    assert!(r.actions.is_empty());
    let readings: Vec<&str> = engine.segments.iter().map(|s| s.reading.as_str()).collect();
    assert_eq!(readings, vec!["あ", "い"]);
}

#[test]
fn a_used_up_segment_goes() {
    let mut engine = InputMethodEngine::new();
    type_text(&mut engine, "aiu");
    engine.process_key(&named(Keysym::SPACE));
    engine.process_key(&with_shift(Keysym::LEFT));
    engine.process_key(&with_shift(Keysym::LEFT));
    engine.process_key(&named(Keysym::RIGHT));
    engine.process_key(&with_shift(Keysym::LEFT));
    engine.process_key(&named(Keysym::LEFT));
    let readings: Vec<&str> = engine.segments.iter().map(|s| s.reading.as_str()).collect();
    assert_eq!(readings, vec!["あ", "い", "う"]);
    engine.process_key(&with_shift(Keysym::RIGHT));
    let readings: Vec<&str> = engine.segments.iter().map(|s| s.reading.as_str()).collect();
    assert_eq!(readings, vec!["あい", "う"]);
    // The border goes elsewhere now.
    engine.process_key(&with_shift(Keysym::LEFT));
    let readings: Vec<&str> = engine.segments.iter().map(|s| s.reading.as_str()).collect();
    assert_eq!(readings, vec!["あ", "いう"]);
}

#[test]
fn escape_goes_back_to_the_reading() {
    let mut engine = InputMethodEngine::new();
    type_text(&mut engine, "kana");
    engine.process_key(&named(Keysym::SPACE));
    let r = engine.process_key(&named(Keysym::ESCAPE));
    assert!(r.consumed);
    assert_eq!(committed(&r), None);
    assert!(matches!(r.actions[1], EngineAction::HideCandidates));
    assert!(matches!(engine.state(), InputState::Composing { .. }));
    assert_eq!(engine.preedit().unwrap().text(), "かな");
    assert_eq!(engine.input_buf.text, "かな");
    assert_eq!(engine.input_buf.cursor_pos, 2);
    assert!(engine.segments.is_empty());

    engine.process_key(&named(Keysym::SPACE));
    engine.process_key(&named(Keysym::BACKSPACE));
    assert_eq!(engine.preedit().unwrap().text(), "かな");
    let r = engine.process_key(&named(Keysym::RETURN));
    assert_eq!(committed(&r).as_deref(), Some("かな"));
    assert!(matches!(engine.state(), InputState::Empty));
    assert!(!engine.cancel_conversion().consumed);
}

#[test]
fn escape_shows_letters_once() {
    let mut engine = InputMethodEngine::new();
    type_text(&mut engine, "nam");
    assert_eq!(engine.preedit().unwrap().text(), "なm");
    engine.process_key(&named(Keysym::TAB));
    assert_eq!(selected(&engine), "なm");
    engine.process_key(&named(Keysym::ESCAPE));
    assert_eq!(engine.preedit().unwrap().text(), "なm");
    assert_eq!(engine.input_buf.text, "なm");
    assert_eq!(engine.converters.romaji.output(), "なm");
    assert_eq!(engine.converters.romaji.buffer(), "");
    let r = engine.process_key(&named(Keysym::RETURN));
    assert_eq!(committed(&r).as_deref(), Some("なm"));

    let mut engine = InputMethodEngine::new();
    type_text(&mut engine, "New");
    engine.process_key(&named(Keysym::DOWN));
    engine.process_key(&named(Keysym::BACKSPACE));
    assert_eq!(engine.preedit().unwrap().text(), "New");
}

#[test]
fn other_keys_are_left_alone_in_a_conversion() {
    let mut engine = InputMethodEngine::new();
    type_text(&mut engine, "a");
    engine.process_key(&named(Keysym::SPACE));
    assert!(!engine.process_key(&named(Keysym::Other(0xffbe))).consumed);
    assert!(!engine.process_key(&with_control('k')).consumed);
    assert!(matches!(engine.state(), InputState::Conversion { .. }));
}

#[test]
fn the_live_conversion_is_kept_at_the_top() {
    let mut engine = InputMethodEngine::new();
    type_text(&mut engine, "ai");
    engine.live.text = "愛".to_string();
    engine.process_key(&named(Keysym::SPACE));
    assert_eq!(shown_texts(&engine), vec!["愛", "あい", "アイ"]);
    assert_eq!(
        candidates(&engine).candidates()[0].source_label.as_deref(),
        Some(CandidateSource::Model.label())
    );
    assert_eq!(engine.live.text, "");

    let mut engine = InputMethodEngine::new();
    type_text(&mut engine, "ai");
    engine.live.text = "アイ".to_string();
    engine.process_key(&named(Keysym::SPACE));
    assert_eq!(shown_texts(&engine), vec!["あい", "アイ"]);
}

#[test]
fn the_live_conversion_is_the_first_from_a_model() {
    let mut engine = InputMethodEngine::new();
    engine.learning = Some(cache(&[("あい", "会い")]));
    engine.converters.kanji = Some(model("main", vec![answer("アイ", 9, &["哀", "相", "愛"], 3)]));
    type_text(&mut engine, "ai");
    engine.live.text = "愛".to_string();
    engine.process_key(&named(Keysym::SPACE));
    assert_eq!(shown_texts(&engine), vec!["会い", "愛", "哀", "相", "あい", "アイ"]);

    // What the learning cache offers stays where it is.
    let mut engine = InputMethodEngine::new();
    engine.learning = Some(cache(&[("あい", "会い"), ("あい", "愛")]));
    engine.converters.kanji = Some(model("main", vec![answer("アイ", 9, &["哀", "愛"], 3)]));
    type_text(&mut engine, "ai");
    engine.live.text = "愛".to_string();
    engine.process_key(&named(Keysym::SPACE));
    assert_eq!(shown_texts(&engine), vec!["会い", "愛", "哀", "あい", "アイ"]);
}

#[test]
fn a_missing_model_is_noted_when_candidates_are_built() {
    let mut engine = InputMethodEngine::new();
    type_text(&mut engine, "ai");
    assert!(!engine.model_wanted);
    engine.process_key(&named(Keysym::SPACE));
    assert!(engine.model_wanted);
    engine.process_key(&named(Keysym::DOWN));
    assert!(!engine.model_wanted);

    // So it is for a shortcode without candidates.
    let mut engine = InputMethodEngine::new();
    engine.input_mode = InputMode::Emoji;
    type_text(&mut engine, ":xyz");
    engine.process_key(&named(Keysym::SPACE));
    assert!(engine.model_wanted);

    let mut engine = InputMethodEngine::new();
    engine.converters.kanji = Some(model("main", vec![]));
    type_text(&mut engine, "ai");
    engine.process_key(&named(Keysym::SPACE));
    assert!(!engine.model_wanted);
}

#[test]
fn stranded_letters_are_repaired() {
    let mut engine = InputMethodEngine::new();
    engine.dicts.system = Some(dictionary(&[("なまこ", &[("海鼠", 1)])]));
    engine.converters.kanji = Some(model("main", vec![answer("ナマコ", 1, &["生子"], 2)]));
    engine.input_buf.text = "なmこ".to_string();
    engine.input_buf.cursor_pos = 3;
    let list = engine.fuzzy_repair_candidates();
    assert_eq!(list[0].text, "海鼠");
    assert_eq!(list[0].reading.as_deref(), Some("なまこ"));
    assert_eq!(list[1].text, "生子");
    assert_eq!(list[1].source, CandidateSource::Model);
    assert_eq!(list[2].text, "なまこ");
    assert_eq!(list[3].text, "ナマコ");
    assert_eq!(list[4].text, "なみこ");

    let r = engine.start_conversion(false);
    assert!(r.consumed);
    assert_eq!(selected(&engine), "海鼠");
    engine.learning = Some(LearningCache::new());
    let r = engine.process_key(&named(Keysym::RETURN));
    assert_eq!(committed(&r).as_deref(), Some("海鼠"));
    // Learned under the repaired reading
    assert_eq!(engine.learning.as_ref().unwrap().lookup("なまこ"), vec!["海鼠"]);
}

#[test]
fn without_hits_a_few_repaired_readings_reach_the_model() {
    let mut engine = InputMethodEngine::new();
    engine.converters.kanji = Some(model("main", vec![]));
    engine.input_buf.text = "なmこ".to_string();
    let list = engine.fuzzy_repair_candidates();
    assert!(list.iter().all(|c| c.source == CandidateSource::Fallback));
    let asked: Vec<&str> = engine.requests.iter().map(|r| r.katakana.as_str()).collect();
    assert_eq!(asked, vec!["ナマコ", "ナミコ", "ナムコ", "ナメコ", "ナモコ"]);
}

#[test]
fn repair_can_be_switched_off() {
    let mut engine = InputMethodEngine::new();
    engine.config.fuzzy_repair_enabled = false;
    engine.dicts.system = Some(dictionary(&[("なまこ", &[("海鼠", 1)])]));
    engine.input_buf.text = "なmこ".to_string();
    engine.input_buf.cursor_pos = 3;
    assert!(engine.fuzzy_repair_candidates().is_empty());
    engine.start_conversion(false);
    assert_eq!(shown_texts(&engine), vec!["なmこ", "ナmコ"]);

    // Tab skips the repair as well.
    let mut engine = InputMethodEngine::new();
    engine.input_buf.text = "なmこ".to_string();
    engine.input_buf.cursor_pos = 3;
    engine.start_conversion(true);
    assert_eq!(shown_texts(&engine), vec!["なmこ", "ナmコ"]);
}

#[test]
fn a_wrong_key_in_kana_is_repaired_when_the_dictionary_knows_better() {
    let mut engine = InputMethodEngine::new();
    engine.dicts.system = Some(dictionary(&[("なまこ", &[("海鼠", 1)])]));
    engine.converters.kanji = Some(model("main", vec![answer("ナマコ", 1, &["生子"], 2)]));
    // "mamako" for "namako"
    type_text(&mut engine, "mamako");
    engine.process_key(&named(Keysym::SPACE));
    assert_eq!(shown_texts(&engine), vec!["海鼠", "生子", "ままこ", "ママコ"]);

    // A reading that the dictionary knows is left alone.
    let mut engine = InputMethodEngine::new();
    engine.dicts.system =
        Some(dictionary(&[("なまこ", &[("海鼠", 1)]), ("ままこ", &[("継子", 1)])]));
    type_text(&mut engine, "mamako");
    engine.process_key(&named(Keysym::SPACE));
    assert_eq!(shown_texts(&engine), vec!["継子", "ままこ", "ママコ"]);
}

#[test]
fn pending_letters_are_flushed_before_a_conversion() {
    let mut engine = InputMethodEngine::new();
    type_text(&mut engine, "hon");
    assert_eq!(engine.preedit().unwrap().text(), "ほn");
    engine.process_key(&named(Keysym::SPACE));
    assert_eq!(shown_texts(&engine), vec!["ほん", "ホン"]);
    assert_eq!(engine.segments[0].reading, "ほん");
}

#[test]
fn the_builder_skips_texts_that_are_there() {
    let mut builder = CandidateBuilder::new();
    assert!(builder.is_empty());
    builder.push(annotated("愛", CandidateSource::Model));
    builder.push(annotated("愛", CandidateSource::Dictionary));
    builder.push_force(annotated("愛", CandidateSource::Learning));
    builder.push(annotated("藍", CandidateSource::Dictionary));
    assert!(!builder.is_empty());
    let list = builder.into_candidates();
    assert_eq!(
        pairs(&list),
        vec![
            ("愛", CandidateSource::Model),
            ("愛", CandidateSource::Learning),
            ("藍", CandidateSource::Dictionary),
        ]
    );
}

#[test]
fn kana_scripts_are_told_apart() {
    assert_eq!(width_annotation("あい"), Some("[全]ひらがな"));
    assert_eq!(width_annotation("アー"), Some("[全]カタカナ"));
    assert_eq!(width_annotation("ｱ"), Some("[半]カタカナ"));
    assert_eq!(width_annotation("あア"), None);
    assert_eq!(width_annotation("愛"), None);
    assert_eq!(width_annotation(""), None);
}

#[test]
fn the_time_of_a_key_is_measured() {
    let mut engine = InputMethodEngine::new();
    engine.metrics.process_key_ms = u64::MAX;
    engine.metrics.conversion_ms = 7;
    engine.process_key(&plain('a'));
    assert!(engine.metrics.process_key_ms < 20_000);
    assert_eq!(engine.metrics.conversion_ms, 0);
}

#[test]
fn milliseconds_keep_their_lower_bits() {
    assert_eq!(low_ms(0), 0);
    assert_eq!(low_ms(1234), 1234);
    assert_eq!(low_ms(u64::MAX as u128), u64::MAX);
    assert_eq!(low_ms(u64::MAX as u128 + 6), 5);
}

#[test]
fn recording_again_moves_a_choice_to_the_front() {
    let mut c = cache(&[("あい", "愛"), ("あい", "藍")]);
    c.record("あい", "藍");
    assert_eq!(c.lookup("あい"), vec!["藍", "愛"]);
    assert_eq!(c.entries.len(), 2);
    c.record("あいさ", "挨拶");
    assert_eq!(
        c.prefix_lookup("あいさ"),
        vec![("あいさ".to_string(), "挨拶".to_string())]
    );
}
