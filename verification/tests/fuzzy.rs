use karukan::romaji::fuzzy::{find_stranded_ascii, qwerty_neighbors, validate_romaji_segment};
use karukan::romaji::{
    generate_hypotheses, generate_kana_hypotheses, reverse_romaji, EditType, RomajiConverter,
};
use std::collections::HashSet;

#[test]
fn test_find_stranded_ascii() {
    // "なmこ": m is between kana
    let result = find_stranded_ascii("なmこ");
    assert_eq!(result.len(), 1);
    assert_eq!(result[0].1, "m");

    // "wsたし": ws is before kana
    let result = find_stranded_ascii("wsたし");
    assert_eq!(result.len(), 1);
    assert_eq!(result[0].1, "ws");

    // Pure kana: nothing stranded
    let result = find_stranded_ascii("なまこ");
    assert!(result.is_empty());

    // Pure ASCII with no surrounding kana: not stranded
    let result = find_stranded_ascii("abc");
    assert!(result.is_empty());
}

#[test]
fn test_qwerty_neighbors() {
    let n = qwerty_neighbors('a');
    assert!(n.contains(&'s'));
    assert!(n.contains(&'q'));
    assert!(n.contains(&'w'));

    let n = qwerty_neighbors('m');
    assert!(n.contains(&'n'));
    assert!(n.contains(&'j'));
    assert!(n.contains(&'k'));

    // Unknown char: empty
    assert!(qwerty_neighbors('1').is_empty());
}

#[test]
fn test_generate_hypotheses_missing_vowel() {
    // "なmこ": the 'm' is stranded; a vowel after it gives "なまこ", "なみこ", etc.
    let hyps = generate_hypotheses("なmこ", 100);
    let readings: Vec<&str> = hyps.iter().map(|h| h.reading.as_str()).collect();

    // ma -> ま
    assert!(readings.contains(&"なまこ"), "expected なまこ in {:?}", readings);
    // mi -> み
    assert!(readings.contains(&"なみこ"), "expected なみこ in {:?}", readings);
    // me -> め
    assert!(readings.contains(&"なめこ"), "expected なめこ in {:?}", readings);
}

#[test]
fn test_generate_hypotheses_substitution() {
    // "wsたし": s -> a gives "wa", わ
    let hyps = generate_hypotheses("wsたし", 100);
    let readings: Vec<&str> = hyps.iter().map(|h| h.reading.as_str()).collect();
    assert!(readings.contains(&"わたし"), "expected わたし in {:?}", readings);
}

#[test]
fn test_generate_hypotheses_no_ascii() {
    // Pure kana: nothing to repair
    let hyps = generate_hypotheses("なまこ", 100);
    assert!(hyps.is_empty());
}

#[test]
fn test_generate_hypotheses_long_ascii_skipped() {
    // "なmskこ" has 3 ASCII chars: skipped
    let hyps = generate_hypotheses("なmskこ", 100);
    assert!(hyps.is_empty());
}

#[test]
fn test_dedup() {
    // Same reading from several edits appears once
    let hyps = generate_hypotheses("なmこ", 100);
    let readings: Vec<&str> = hyps.iter().map(|h| h.reading.as_str()).collect();
    let unique: HashSet<&str> = readings.iter().copied().collect();
    assert_eq!(readings.len(), unique.len(), "duplicate readings found");
}

#[test]
fn test_multi_segment_ascii_filtered() {
    // Two segments: repairing one leaves the other, so nothing is left.
    let hyps = generate_hypotheses("なmたsし", 100);
    for h in &hyps {
        assert!(
            !h.reading.chars().any(|c| c.is_ascii_alphabetic()),
            "hypothesis {:?} contains residual ASCII",
            h.reading
        );
    }
}

#[test]
fn stranded_segments_are_lower_case_letters_with_their_place() {
    assert_eq!(
        find_stranded_ascii("xなMkこ st"),
        vec![(0, "x".to_string()), (3, "k".to_string())]
    );
    assert!(find_stranded_ascii("なMこ").is_empty());
    assert_eq!(find_stranded_ascii("カーk"), vec![(2, "k".to_string())]);
    assert!(find_stranded_ascii("漢k字").is_empty());
    assert!(find_stranded_ascii("").is_empty());
}

#[test]
fn no_hypothesis_holds_ascii() {
    assert!(generate_hypotheses("1なmこ", 100).is_empty());
    assert!(generate_hypotheses("なmこ!", 100).is_empty());
    assert!(generate_hypotheses("なMこ", 100).is_empty());
    assert_eq!(generate_hypotheses("なmこ。", 100)[0].reading, "なまこ。");
    assert!(generate_kana_hypotheses("1か", 50).is_empty());
}

#[test]
fn two_stranded_segments_leave_no_hypothesis() {
    assert!(generate_hypotheses("なmたsし", 100).is_empty());
}

#[test]
fn hypotheses_come_in_the_order_of_the_edits() {
    let hyps = generate_hypotheses("なmこ", 100);
    let first: Vec<(&str, EditType)> =
        hyps.iter().take(5).map(|h| (h.reading.as_str(), h.edit_type)).collect();
    assert_eq!(
        first,
        vec![
            ("なまこ", EditType::Insertion),
            ("なみこ", EditType::Insertion),
            ("なむこ", EditType::Insertion),
            ("なめこ", EditType::Insertion),
            ("なもこ", EditType::Insertion),
        ]
    );
    assert!(hyps.iter().any(|h| h.reading == "なこ" && h.edit_type == EditType::Deletion));
}

#[test]
fn swapped_letters_are_repaired() {
    let hyps = generate_hypotheses("おあkそ", 100);
    assert!(hyps.iter().any(|h| h.reading == "おあかそ"));
    let hyps = generate_hypotheses("akな", 100);
    assert!(hyps.iter().any(|h| h.reading == "かな" && h.edit_type == EditType::Transposition));
}

#[test]
fn the_cap_keeps_the_first_hypotheses() {
    let all = generate_hypotheses("なmこ", 100);
    let few = generate_hypotheses("なmこ", 3);
    assert_eq!(few.len(), 3);
    for i in 0..3 {
        assert_eq!(few[i].reading, all[i].reading);
    }
    assert!(generate_hypotheses("なmこ", 0).is_empty());
}

#[test]
fn only_clean_segments_are_valid() {
    assert_eq!(validate_romaji_segment("ma"), Some("ま".to_string()));
    assert_eq!(validate_romaji_segment("n"), Some("ん".to_string()));
    assert_eq!(validate_romaji_segment("m"), None);
    assert_eq!(validate_romaji_segment(""), None);
}

#[test]
fn the_converter_takes_one_key_at_a_time() {
    let mut c = RomajiConverter::new();
    for k in "kyoutokk".chars() {
        c.push(k);
    }
    assert_eq!(c.output(), "きょうとっ");
    assert_eq!(c.buffer(), "k");
    c.push('a');
    assert_eq!(c.output(), "きょうとっか");
    c.push('n');
    assert_eq!(c.buffer(), "n");
    c.flush();
    assert_eq!(c.output(), "きょうとっかん");
    assert_eq!(c.buffer(), "");
    c.push('。');
    c.push('-');
    assert_eq!(c.output(), "きょうとっかん。ー");
    c.reset();
    assert_eq!(c.output(), "");
}

#[test]
fn kana_are_spelled_back() {
    assert_eq!(reverse_romaji("なまこ"), "namako");
    assert_eq!(reverse_romaji("カナ"), "カナ");
    for kana in ["しゃっきん", "んっや", "ぃゃっん", "きんえん", "こんにゃく", "んんか", "ゔっぁ。ゎ"] {
        let mut c = RomajiConverter::new();
        for k in reverse_romaji(kana).chars() {
            c.push(k);
        }
        c.flush();
        assert_eq!(c.output(), kana);
    }
}

#[test]
fn kana_hypotheses_differ_from_the_reading() {
    let hyps = generate_kana_hypotheses("なまこ", 50);
    assert!(!hyps.is_empty());
    assert!(hyps.len() <= 50);
    assert!(hyps.iter().all(|h| h.reading != "なまこ"));
    // n -> m
    assert!(hyps.iter().any(|h| h.reading == "ままこ"));
    assert!(hyps.iter().all(|h| h.edit_type == EditType::Substitution));
}
