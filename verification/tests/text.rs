use karukan::engine::sources::sort_by_score;
use karukan::engine::{
    AttributeType, Candidate, CandidateList, DictCandidate, Preedit, PreeditSegment,
};
use karukan::romaji::RomajiConverter;
use karukan::text::{
    chars_of, contains_ascii, contains_ascii_letter, contains_kana, has_prefix, hiragana_to_katakana,
    is_pure_hiragana, text_of, to_decimal,
};

#[test]
fn hiragana_become_katakana_and_the_rest_stays() {
    assert_eq!(hiragana_to_katakana("ぁんゔゝー漢a"), "ァンヴヽー漢a");
    let once = hiragana_to_katakana("かな");
    assert_eq!(once, "カナ");
    assert_eq!(hiragana_to_katakana(&once), once);
    assert_eq!(hiragana_to_katakana(""), "");
}

#[test]
fn texts_are_taken_apart_and_put_together() {
    assert_eq!(chars_of("なmこ"), vec!['な', 'm', 'こ']);
    assert_eq!(text_of(&['な', '😄']), "な😄");
    assert!(has_prefix("あいさつ", "あい"));
    assert!(!has_prefix("あ", "あい"));
    assert!(has_prefix("あ", ""));
}

#[test]
fn letters_and_kana_are_found() {
    assert!(contains_ascii_letter("なMこ"));
    assert!(!contains_ascii_letter("な1こ"));
    assert!(contains_ascii("な1こ"));
    assert!(!contains_ascii("なé。"));
    assert!(contains_kana("漢ー"));
    assert!(!contains_kana("「abc」"));
    assert!(is_pure_hiragana("なまこ"));
    assert!(!is_pure_hiragana("なmこ"));
    assert!(!is_pure_hiragana(""));
}

#[test]
fn numbers_are_written_in_decimal() {
    assert_eq!(to_decimal(0), "0");
    assert_eq!(to_decimal(907), "907");
    assert_eq!(to_decimal(usize::MAX), format!("{}", usize::MAX));
}

#[test]
fn equal_scores_keep_their_order() {
    let list = vec![
        DictCandidate { surface: "b".to_string(), score: 3 },
        DictCandidate { surface: "c".to_string(), score: -1 },
        DictCandidate { surface: "a".to_string(), score: 3 },
    ];
    let sorted: Vec<String> = sort_by_score(&list).into_iter().map(|c| c.surface).collect();
    assert_eq!(sorted, vec!["c", "b", "a"]);
}

#[test]
fn a_key_changes_nothing_that_is_settled() {
    let mut c = RomajiConverter::new();
    let mut before = String::new();
    for k in "shinnjitsuchhiq.".chars() {
        c.push(k);
        assert!(c.output().starts_with(&before));
        before = c.output().to_string();
    }
    c.flush();
    assert!(c.output().starts_with(&before));
    assert_eq!(c.buffer(), "");
}

#[test]
fn a_preedit_shows_its_segments() {
    let p = Preedit::from_segments(
        vec![
            PreeditSegment::highlighted("愛"),
            PreeditSegment::new("うえ", AttributeType::Underline),
        ],
        1,
    );
    assert_eq!(p.text(), "愛うえ");
    assert_eq!(Preedit::new().text(), "");
    assert_eq!(Preedit::with_text_underlined("かな").text(), "かな");
}

fn candidate(text: &str) -> Candidate {
    Candidate { text: text.to_string(), reading: None, source_label: None, description: None }
}

#[test]
fn a_list_goes_round() {
    let mut list = CandidateList::new(vec![candidate("a"), candidate("b")]);
    assert!(list.move_prev());
    assert_eq!(list.selected_text(), Some("b"));
    assert!(list.move_next());
    assert_eq!(list.selected_text(), Some("a"));
    assert_eq!(list.select_on_page(2).map(|c| c.text), Some("b".to_string()));
    assert!(list.select_on_page(3).is_none());
    assert!(list.select_on_page(0).is_none());
    assert_eq!(list.cursor(), 1);

    let mut none = CandidateList::new(vec![]);
    assert!(!none.move_next());
    assert!(!none.move_prev());
    assert_eq!(none.selected_text(), None);
    assert!(none.select_on_page(1).is_none());
}
