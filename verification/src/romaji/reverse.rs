//! The keys that type a kana text, and repair of texts that are kana already.
use super::converter;
use super::converter::RomajiView;
use super::fuzzy;
use super::fuzzy::{
    add_hypothesis, push_substitutions, validate_romaji_segment, EditType, FuzzyHypothesis,
    HypothesisView,
};
use super::rules;
use super::rules::Row;
use crate::distinct;
use crate::distinct::Keyed;
use crate::text;
use crate::text::{chars_of, contains_ascii, text_of};
use vstd::prelude::*;

verus! {

/// The letter keys for a hiragana: a consonant, if any, and a vowel.
pub open spec fn keys_of(c: char) -> Option<(Option<char>, char)> {
    match c {
        'あ' => Some((None, 'a')),
        'い' => Some((None, 'i')),
        'う' => Some((None, 'u')),
        'え' => Some((None, 'e')),
        'お' => Some((None, 'o')),
        'か' => Some((Some('k'), 'a')),
        'き' => Some((Some('k'), 'i')),
        'く' => Some((Some('k'), 'u')),
        'け' => Some((Some('k'), 'e')),
        'こ' => Some((Some('k'), 'o')),
        'さ' => Some((Some('s'), 'a')),
        'し' => Some((Some('s'), 'i')),
        'す' => Some((Some('s'), 'u')),
        'せ' => Some((Some('s'), 'e')),
        'そ' => Some((Some('s'), 'o')),
        'た' => Some((Some('t'), 'a')),
        'ち' => Some((Some('t'), 'i')),
        'つ' => Some((Some('t'), 'u')),
        'て' => Some((Some('t'), 'e')),
        'と' => Some((Some('t'), 'o')),
        'な' => Some((Some('n'), 'a')),
        'に' => Some((Some('n'), 'i')),
        'ぬ' => Some((Some('n'), 'u')),
        'ね' => Some((Some('n'), 'e')),
        'の' => Some((Some('n'), 'o')),
        'は' => Some((Some('h'), 'a')),
        'ひ' => Some((Some('h'), 'i')),
        'ふ' => Some((Some('h'), 'u')),
        'へ' => Some((Some('h'), 'e')),
        'ほ' => Some((Some('h'), 'o')),
        'ま' => Some((Some('m'), 'a')),
        'み' => Some((Some('m'), 'i')),
        'む' => Some((Some('m'), 'u')),
        'め' => Some((Some('m'), 'e')),
        'も' => Some((Some('m'), 'o')),
        'や' => Some((Some('y'), 'a')),
        'ゆ' => Some((Some('y'), 'u')),
        'よ' => Some((Some('y'), 'o')),
        'ら' => Some((Some('r'), 'a')),
        'り' => Some((Some('r'), 'i')),
        'る' => Some((Some('r'), 'u')),
        'れ' => Some((Some('r'), 'e')),
        'ろ' => Some((Some('r'), 'o')),
        'わ' => Some((Some('w'), 'a')),
        'を' => Some((Some('w'), 'o')),
        'が' => Some((Some('g'), 'a')),
        'ぎ' => Some((Some('g'), 'i')),
        'ぐ' => Some((Some('g'), 'u')),
        'げ' => Some((Some('g'), 'e')),
        'ご' => Some((Some('g'), 'o')),
        'ざ' => Some((Some('z'), 'a')),
        'じ' => Some((Some('z'), 'i')),
        'ず' => Some((Some('z'), 'u')),
        'ぜ' => Some((Some('z'), 'e')),
        'ぞ' => Some((Some('z'), 'o')),
        'だ' => Some((Some('d'), 'a')),
        'ぢ' => Some((Some('d'), 'i')),
        'づ' => Some((Some('d'), 'u')),
        'で' => Some((Some('d'), 'e')),
        'ど' => Some((Some('d'), 'o')),
        'ば' => Some((Some('b'), 'a')),
        'び' => Some((Some('b'), 'i')),
        'ぶ' => Some((Some('b'), 'u')),
        'べ' => Some((Some('b'), 'e')),
        'ぼ' => Some((Some('b'), 'o')),
        'ぱ' => Some((Some('p'), 'a')),
        'ぴ' => Some((Some('p'), 'i')),
        'ぷ' => Some((Some('p'), 'u')),
        'ぺ' => Some((Some('p'), 'e')),
        'ぽ' => Some((Some('p'), 'o')),
        'ゔ' => Some((Some('v'), 'u')),
        'ぁ' => Some((Some('x'), 'a')),
        'ぃ' => Some((Some('x'), 'i')),
        'ぅ' => Some((Some('x'), 'u')),
        'ぇ' => Some((Some('x'), 'e')),
        'ぉ' => Some((Some('x'), 'o')),
        _ => None,
    }
}

fn find_keys(c: char) -> (r: Option<(Option<char>, char)>)
    ensures
        r == keys_of(c),
{
    match c {
        'あ' => Some((None, 'a')),
        'い' => Some((None, 'i')),
        'う' => Some((None, 'u')),
        'え' => Some((None, 'e')),
        'お' => Some((None, 'o')),
        'か' => Some((Some('k'), 'a')),
        'き' => Some((Some('k'), 'i')),
        'く' => Some((Some('k'), 'u')),
        'け' => Some((Some('k'), 'e')),
        'こ' => Some((Some('k'), 'o')),
        'さ' => Some((Some('s'), 'a')),
        'し' => Some((Some('s'), 'i')),
        'す' => Some((Some('s'), 'u')),
        'せ' => Some((Some('s'), 'e')),
        'そ' => Some((Some('s'), 'o')),
        'た' => Some((Some('t'), 'a')),
        'ち' => Some((Some('t'), 'i')),
        'つ' => Some((Some('t'), 'u')),
        'て' => Some((Some('t'), 'e')),
        'と' => Some((Some('t'), 'o')),
        'な' => Some((Some('n'), 'a')),
        'に' => Some((Some('n'), 'i')),
        'ぬ' => Some((Some('n'), 'u')),
        'ね' => Some((Some('n'), 'e')),
        'の' => Some((Some('n'), 'o')),
        'は' => Some((Some('h'), 'a')),
        'ひ' => Some((Some('h'), 'i')),
        'ふ' => Some((Some('h'), 'u')),
        'へ' => Some((Some('h'), 'e')),
        'ほ' => Some((Some('h'), 'o')),
        'ま' => Some((Some('m'), 'a')),
        'み' => Some((Some('m'), 'i')),
        'む' => Some((Some('m'), 'u')),
        'め' => Some((Some('m'), 'e')),
        'も' => Some((Some('m'), 'o')),
        'や' => Some((Some('y'), 'a')),
        'ゆ' => Some((Some('y'), 'u')),
        'よ' => Some((Some('y'), 'o')),
        'ら' => Some((Some('r'), 'a')),
        'り' => Some((Some('r'), 'i')),
        'る' => Some((Some('r'), 'u')),
        'れ' => Some((Some('r'), 'e')),
        'ろ' => Some((Some('r'), 'o')),
        'わ' => Some((Some('w'), 'a')),
        'を' => Some((Some('w'), 'o')),
        'が' => Some((Some('g'), 'a')),
        'ぎ' => Some((Some('g'), 'i')),
        'ぐ' => Some((Some('g'), 'u')),
        'げ' => Some((Some('g'), 'e')),
        'ご' => Some((Some('g'), 'o')),
        'ざ' => Some((Some('z'), 'a')),
        'じ' => Some((Some('z'), 'i')),
        'ず' => Some((Some('z'), 'u')),
        'ぜ' => Some((Some('z'), 'e')),
        'ぞ' => Some((Some('z'), 'o')),
        'だ' => Some((Some('d'), 'a')),
        'ぢ' => Some((Some('d'), 'i')),
        'づ' => Some((Some('d'), 'u')),
        'で' => Some((Some('d'), 'e')),
        'ど' => Some((Some('d'), 'o')),
        'ば' => Some((Some('b'), 'a')),
        'び' => Some((Some('b'), 'i')),
        'ぶ' => Some((Some('b'), 'u')),
        'べ' => Some((Some('b'), 'e')),
        'ぼ' => Some((Some('b'), 'o')),
        'ぱ' => Some((Some('p'), 'a')),
        'ぴ' => Some((Some('p'), 'i')),
        'ぷ' => Some((Some('p'), 'u')),
        'ぺ' => Some((Some('p'), 'e')),
        'ぽ' => Some((Some('p'), 'o')),
        'ゔ' => Some((Some('v'), 'u')),
        'ぁ' => Some((Some('x'), 'a')),
        'ぃ' => Some((Some('x'), 'i')),
        'ぅ' => Some((Some('x'), 'u')),
        'ぇ' => Some((Some('x'), 'e')),
        'ぉ' => Some((Some('x'), 'o')),
        _ => None,
    }
}

/// The vowel of a small `ゃ`, `ゅ` or `ょ`.
pub open spec fn small_y_vowel(c: char) -> Option<char> {
    match c {
        'ゃ' => Some('a'),
        'ゅ' => Some('u'),
        'ょ' => Some('o'),
        _ => None,
    }
}

fn find_small_y_vowel(c: char) -> (r: Option<char>)
    ensures
        r == small_y_vowel(c),
{
    match c {
        'ゃ' => Some('a'),
        'ゅ' => Some('u'),
        'ょ' => Some('o'),
        _ => None,
    }
}

/// The keys for the character at `i`, and how many characters they stand for: two
/// for a kana with a small `ゃ`, `ゅ` or `ょ` behind it. A `っ` doubles the consonant
/// that follows it, an `ん` takes a second `n` where one would be ambiguous, and
/// what has no spelling stands for itself.
pub open spec fn spelling_at(s: Seq<char>, i: int) -> (Seq<char>, int) {
    let c = s[i];
    let next = if i + 1 < s.len() {
        Some(s[i + 1])
    } else {
        None
    };
    let next_keys = match next {
        Some(n) => keys_of(n),
        None => None,
    };
    match (keys_of(c), next) {
        (Some((Some(onset), vowel)), Some(n)) if vowel == 'i' && onset != 'x' && small_y_vowel(
            n,
        ) is Some => (
            seq![onset, 'y', small_y_vowel(n)->0],
            2,
        ),
        (Some((Some(onset), vowel)), _) => (seq![onset, vowel], 1),
        (Some((None, vowel)), _) => (seq![vowel], 1),
        (None, _) => match c {
            'ん' => match next_keys {
                _ if next == Some('ん') => (seq!['n', 'n'], 1),
                Some((None, _)) => (seq!['n', 'n'], 1),
                Some((Some(onset), _)) => if onset == 'n' || onset == 'y' {
                    (seq!['n', 'n'], 1)
                } else {
                    (seq!['n'], 1)
                },
                None => (seq!['n'], 1),
            },
            'っ' => match next_keys {
                Some((Some(onset), _)) => if onset == 'n' {
                    (seq!['x', 't', 'u'], 1)
                } else {
                    (seq![onset], 1)
                },
                _ => (seq!['x', 't', 'u'], 1),
            },
            'ゃ' => (seq!['x', 'y', 'a'], 1),
            'ゅ' => (seq!['x', 'y', 'u'], 1),
            'ょ' => (seq!['x', 'y', 'o'], 1),
            _ => (seq![c], 1),
        },
    }
}

/// The keys for the text from `i` on.
pub open spec fn spelling_from(s: Seq<char>, i: int) -> Seq<char>
    decreases s.len() - i,
{
    if i < 0 || i >= s.len() {
        Seq::empty()
    } else {
        spelling_at(s, i).0 + spelling_from(s, i + spelling_at(s, i).1)
    }
}

fn find_spelling(s: &Vec<char>, i: usize) -> (r: (Vec<char>, usize))
    requires
        i < s.len(),
    ensures
        r.0@ == spelling_at(s@, i as int).0,
        r.1 == spelling_at(s@, i as int).1,
        i + r.1 <= s.len(),
{
    let c = s[i];
    let next: Option<char> = if i + 1 < s.len() {
        Some(s[i + 1])
    } else {
        None
    };
    let next_keys = match next {
        Some(n) => find_keys(n),
        None => None,
    };
    let glide: Option<char> = match next {
        Some(n) => find_small_y_vowel(n),
        None => None,
    };
    match find_keys(c) {
        Some((Some(onset), vowel)) => {
            if vowel == 'i' && onset != 'x' {
                if let Some(y) = glide {
                    return (vec![onset, 'y', y], 2);
                }
            }
            (vec![onset, vowel], 1)
        },
        Some((None, vowel)) => (vec![vowel], 1),
        None => {
            if c == 'ん' {
                let repeated = match next {
                    Some(n) => n == 'ん',
                    None => false,
                };
                if repeated {
                    return (vec!['n', 'n'], 1);
                }
                match next_keys {
                    Some((None, _)) => (vec!['n', 'n'], 1),
                    Some((Some(onset), _)) => {
                        if onset == 'n' || onset == 'y' {
                            (vec!['n', 'n'], 1)
                        } else {
                            (vec!['n'], 1)
                        }
                    },
                    None => (vec!['n'], 1),
                }
            } else if c == 'っ' {
                match next_keys {
                    Some((Some(onset), _)) => {
                        if onset == 'n' {
                            (vec!['x', 't', 'u'], 1)
                        } else {
                            (vec![onset], 1)
                        }
                    },
                    _ => (vec!['x', 't', 'u'], 1),
                }
            } else if c == 'ゃ' {
                (vec!['x', 'y', 'a'], 1)
            } else if c == 'ゅ' {
                (vec!['x', 'y', 'u'], 1)
            } else if c == 'ょ' {
                (vec!['x', 'y', 'o'], 1)
            } else {
                (vec![c], 1)
            }
        },
    }
}

/// The keys that type a hiragana text. Characters without a spelling, katakana among
/// them, stand for themselves.
pub fn reverse_romaji(kana: &str) -> (r: String)
    ensures
        r@ == spelling_from(kana@, 0),
{
    let s = chars_of(kana);
    let mut r = String::new();
    let mut i: usize = 0;
    assert(r@ + spelling_from(s@, 0) =~= spelling_from(s@, 0));
    while i < s.len()
        invariant
            i <= s.len(),
            s@ == kana@,
            r@ + spelling_from(s@, i as int) == spelling_from(s@, 0),
        decreases s.len() - i,
    {
        let (keys, n) = find_spelling(&s, i);
        let ghost before = r@;
        r.append(text_of(keys.as_slice()).as_str());
        assert(before + (keys@ + spelling_from(s@, i + n)) =~= r@ + spelling_from(s@, i + n));
        i += n;
    }
    assert(r@ + Seq::<char>::empty() =~= r@);
    r
}

/// The readings other than `reading` itself, and without ASCII characters, that edits
/// of its keys lead to.
pub open spec fn kana_repairs(reading: Seq<char>, candidates: Seq<Seq<char>>) -> Seq<HypothesisView>
    decreases candidates.len(),
{
    if candidates.len() == 0 {
        Seq::empty()
    } else {
        let before = kana_repairs(reading, candidates.drop_last());
        match fuzzy::valid_kana(candidates.last()) {
            Some(kana) => if kana == reading || text::has_ascii(kana) {
                before
            } else {
                before.push(HypothesisView { reading: kana, edit_type: EditType::Substitution })
            },
            None => before,
        }
    }
}

/// The hypotheses for a kana reading: one of the keys that type it is replaced by a
/// neighbor, each other reading once, at most `max`.
pub open spec fn kana_hypotheses(reading: Seq<char>, max: nat) -> Seq<HypothesisView> {
    distinct::at_most(
        distinct::first_of_each(kana_repairs(reading, fuzzy::substitutions(spelling_from(reading, 0)))),
        max,
    )
}

/// Generates repair hypotheses for a reading that is kana already: a neighbor of one
/// of the keys that type it may have been meant. At most `max_hypotheses`, every
/// reading at most once, none with an ASCII character in it, and never the reading
/// itself.
pub fn generate_kana_hypotheses(reading: &str, max_hypotheses: usize) -> (r: Vec<FuzzyHypothesis>)
    ensures
        fuzzy::hypothesis_views(r@) == kana_hypotheses(reading@, max_hypotheses as nat),
{
    let typed = reading.to_owned();
    let keys = chars_of(reverse_romaji(reading).as_str());
    let mut candidates: Vec<(Vec<char>, EditType)> = Vec::new();
    assert(fuzzy::edit_views(candidates@) =~= Seq::empty());
    push_substitutions(&keys, &mut candidates);
    let ghost all = fuzzy::substitutions(keys@);
    let ghost max = max_hypotheses as nat;
    assert(fuzzy::edit_views(candidates@) =~= fuzzy::tagged(all, EditType::Substitution));
    let mut list: Vec<FuzzyHypothesis> = Vec::new();
    let mut i: usize = 0;
    assert(all.take(0) =~= Seq::empty());
    assert(fuzzy::hypothesis_views(list@) =~= Seq::empty());
    assert(candidates.len() == fuzzy::edit_views(candidates@).len());
    while i < candidates.len()
        invariant
            i <= candidates.len(),
            typed@ == reading@,
            max == max_hypotheses,
            list.len() <= max_hypotheses,
            candidates.len() == all.len(),
            fuzzy::edit_views(candidates@) == fuzzy::tagged(all, EditType::Substitution),
            fuzzy::hypothesis_views(list@) == distinct::at_most(
                distinct::first_of_each(kana_repairs(reading@, all.take(i as int))),
                max,
            ),
        decreases candidates.len() - i,
    {
        let ghost done = kana_repairs(reading@, all.take(i as int));
        assert(all.take(i + 1).drop_last() =~= all.take(i as int));
        assert(fuzzy::edit_views(candidates@)[i as int].0 == all[i as int]);
        let spelled = text_of(candidates[i].0.as_slice());
        if let Some(kana) = validate_romaji_segment(spelled.as_str()) {
            if kana != typed && !contains_ascii(kana.as_str()) {
                proof {
                    let new = HypothesisView {
                        reading: kana@,
                        edit_type: EditType::Substitution,
                    };
                    distinct::lemma_cut_then_push(distinct::first_of_each(done), new, max);
                    distinct::lemma_extend_push(Seq::empty(), done, new);
                }
                add_hypothesis(&mut list, kana, EditType::Substitution, max_hypotheses);
            }
        }
        i += 1;
    }
    assert(all.take(i as int) =~= all);
    list
}

proof fn lemma_kana_repairs(reading: Seq<char>, candidates: Seq<Seq<char>>)
    ensures
        !distinct::has_key(kana_repairs(reading, candidates), reading),
        forall|i: int|
            0 <= i < kana_repairs(reading, candidates).len() ==> !text::has_ascii(
                (#[trigger] kana_repairs(reading, candidates)[i]).reading,
            ),
    decreases candidates.len(),
{
    if candidates.len() > 0 {
        lemma_kana_repairs(reading, candidates.drop_last());
        let before = kana_repairs(reading, candidates.drop_last());
        let all = kana_repairs(reading, candidates);
        assert forall|i: int| 0 <= i < all.len() implies (#[trigger] all[i]).key() != reading
            && !text::has_ascii(all[i].reading) by {
            if i < before.len() {
                assert(before[i].key() != reading);
            }
        }
    }
}

/// The hypotheses for a kana reading are at most `max`, all different, none of them
/// holds an ASCII character, and none is the reading itself.
pub proof fn law_kana_hypotheses(reading: Seq<char>, max: nat)
    ensures
        kana_hypotheses(reading, max).len() <= max,
        distinct::all_distinct(kana_hypotheses(reading, max)),
        !distinct::has_key(kana_hypotheses(reading, max), reading),
        forall|i: int|
            0 <= i < kana_hypotheses(reading, max).len() ==> !text::has_ascii(
                (#[trigger] kana_hypotheses(reading, max)[i]).reading,
            ),
{
    let none = Seq::<HypothesisView>::empty();
    let all = kana_repairs(reading, fuzzy::substitutions(spelling_from(reading, 0)));
    let each = distinct::first_of_each(all);
    lemma_kana_repairs(reading, fuzzy::substitutions(spelling_from(reading, 0)));
    distinct::law_extend_distinct(none, all);
    distinct::lemma_at_most_distinct(each, max);
    distinct::law_extend_keys(none, all, reading);
    let list = kana_hypotheses(reading, max);
    assert forall|i: int| 0 <= i < list.len() implies (#[trigger] list[i]).key() != reading
        && !text::has_ascii(list[i].reading) by {
        assert(each[i].key() != reading);
        distinct::law_extend_adds_items(none, all, i);
        let j = choose|j: int| 0 <= j < all.len() && all[j] == each[i];
        assert(!text::has_ascii(all[j].reading));
    }
}

/// The kana of the row without a consonant.
spec fn plain_kana(vowel: char) -> Option<Seq<char>> {
    rules::kana_in_row(Row::Plain('あ', 'い', 'う', 'え', 'お'), vowel)
}

/// What becomes of one letter on its own.
spec fn settled_one(output: Seq<char>, a: char) -> RomajiView {
    if plain_kana(a) is Some {
        RomajiView { output: output + plain_kana(a)->0, pending: Seq::empty() }
    } else if rules::row_of_letter(a) is Some {
        RomajiView { output, pending: seq![a] }
    } else {
        RomajiView { output: output.push(rules::punctuation(a)), pending: Seq::empty() }
    }
}

/// What becomes of two letters.
spec fn settled_two(output: Seq<char>, a: char, b: char) -> RomajiView {
    let row = rules::row_of_letter(a);
    if row is Some && rules::kana_in_row(row->0, b) is Some {
        RomajiView { output: output + rules::kana_in_row(row->0, b)->0, pending: Seq::empty() }
    } else if a == 'n' && (b == 'n' || b == '\'') {
        RomajiView { output: output.push('ん'), pending: Seq::empty() }
    } else if rules::row_of_pair(a, b) is Some {
        RomajiView { output, pending: seq![a, b] }
    } else {
        settled_one(output.push(converter::leading_kana(seq![a, b])), b)
    }
}

/// What becomes of three letters.
spec fn settled_three(output: Seq<char>, a: char, b: char, c: char) -> RomajiView {
    let row = rules::row_of_pair(a, b);
    if row is Some && rules::kana_in_row(row->0, c) is Some {
        RomajiView { output: output + rules::kana_in_row(row->0, c)->0, pending: Seq::empty() }
    } else {
        settled_two(output.push(converter::leading_kana(seq![a, b, c])), b, c)
    }
}

proof fn lemma_settled_one(output: Seq<char>, a: char)
    ensures
        (RomajiView { output, pending: seq![a] }).settled() == settled_one(output, a),
{
    let v = RomajiView { output, pending: seq![a] };
    assert(v.pending.drop_last() =~= Seq::empty());
    assert(v.pending.drop_first() =~= Seq::empty());
    reveal_with_fuel(RomajiView::settled, 2);
    assert(v.settled() =~= settled_one(output, a));
}

proof fn lemma_settled_two(output: Seq<char>, a: char, b: char)
    ensures
        (RomajiView { output, pending: seq![a, b] }).settled() == settled_two(output, a, b),
{
    let v = RomajiView { output, pending: seq![a, b] };
    assert(v.pending.drop_last() =~= seq![a]);
    assert(v.pending.drop_first() =~= seq![b]);
    lemma_settled_one(output.push(converter::leading_kana(seq![a, b])), b);
    assert(v.settled() =~= settled_two(output, a, b));
}

proof fn lemma_settled_three(output: Seq<char>, a: char, b: char, c: char)
    ensures
        (RomajiView { output, pending: seq![a, b, c] }).settled() == settled_three(output, a, b, c),
{
    let v = RomajiView { output, pending: seq![a, b, c] };
    assert(v.pending.drop_last() =~= seq![a, b]);
    assert(v.pending.drop_first() =~= seq![b, c]);
    lemma_settled_two(output.push(converter::leading_kana(seq![a, b, c])), b, c);
    assert(v.settled() =~= settled_three(output, a, b, c));
}

/// What a key does behind at most two pending letters.
proof fn lemma_pushed(v: RomajiView, k: char)
    ensures
        v.pending.len() == 0 ==> v.pushed(k) == settled_one(v.output, k),
        v.pending.len() == 1 ==> v.pushed(k) == settled_two(v.output, v.pending[0], k),
        v.pending.len() == 2 ==> v.pushed(k) == settled_three(
            v.output,
            v.pending[0],
            v.pending[1],
            k,
        ),
{
    if v.pending.len() == 0 {
        assert(v.pending.push(k) =~= seq![k]);
        lemma_settled_one(v.output, k);
    } else if v.pending.len() == 1 {
        assert(v.pending.push(k) =~= seq![v.pending[0], k]);
        lemma_settled_two(v.output, v.pending[0], k);
    } else if v.pending.len() == 2 {
        assert(v.pending.push(k) =~= seq![v.pending[0], v.pending[1], k]);
        lemma_settled_three(v.output, v.pending[0], v.pending[1], k);
    }
}

/// The table and the keys agree.
proof fn lemma_keys(c: char)
    ensures
        match keys_of(c) {
            Some((Some(onset), vowel)) => {
                &&& rules::row_of_letter(onset) is Some
                &&& rules::kana_in_row(rules::row_of_letter(onset)->0, vowel) == Some(seq![c])
                &&& plain_kana(onset) is None
                &&& onset != 'l' && onset != 'c'
                &&& 'a' <= onset && onset <= 'z'
            },
            Some((None, vowel)) => plain_kana(vowel) == Some(seq![c]),
            None => true,
        },
{
}

proof fn lemma_glide(c: char, onset: char, small: char)
    requires
        keys_of(c) == Some((Some(onset), 'i')),
        onset != 'x',
        small_y_vowel(small) is Some,
    ensures
        rules::row_of_pair(onset, 'y') == Some(Row::Glide(c)),
        rules::kana_in_row(Row::Glide(c), small_y_vowel(small)->0) == Some(seq![c, small]),
{
}

/// Behind a single `n` this character makes it an `ん`.
spec fn ends_n(c: char) -> bool {
    c != 'ん' && match keys_of(c) {
        None => true,
        Some((None, _)) => false,
        Some((Some(onset), _)) => onset != 'n' && onset != 'y',
    }
}

/// The converter has produced the first `i` characters.
spec fn all_out(s: Seq<char>, i: int, v: RomajiView) -> bool {
    v == (RomajiView { output: s.take(i), pending: Seq::empty() })
}

/// As before, but for an `ん` that waits for the next key.
spec fn n_waits(s: Seq<char>, i: int, v: RomajiView) -> bool {
    &&& i >= 1
    &&& s[i - 1] == 'ん'
    &&& i < s.len() ==> ends_n(s[i])
    &&& v == (RomajiView { output: s.take(i - 1), pending: seq!['n'] })
}

/// As before, but for a `っ` that waits for the consonant to come again.
spec fn double_waits(s: Seq<char>, i: int, onset: char, v: RomajiView) -> bool {
    &&& 1 <= i < s.len()
    &&& s[i - 1] == 'っ'
    &&& keys_of(s[i]) matches Some((Some(o), _)) && o == onset
    &&& onset != 'n'
    &&& v == (RomajiView { output: s.take(i - 1), pending: seq![onset] })
}

/// As before, but for an `ん` and a `っ`, where the letters could still become `にゃ`.
spec fn both_wait(s: Seq<char>, i: int, v: RomajiView) -> bool {
    &&& 2 <= i < s.len()
    &&& s[i - 2] == 'ん'
    &&& s[i - 1] == 'っ'
    &&& keys_of(s[i]) matches Some((Some(o), _)) && o == 'y'
    &&& v == (RomajiView { output: s.take(i - 2), pending: seq!['n', 'y'] })
}

/// Where the converter can be after the keys for the first `i` characters.
spec fn on_track(s: Seq<char>, i: int, v: RomajiView) -> bool {
    ||| all_out(s, i, v)
    ||| n_waits(s, i, v)
    ||| exists|onset: char| double_waits(s, i, onset, v)
    ||| both_wait(s, i, v)
}

spec fn no_ascii(s: Seq<char>) -> bool {
    forall|i: int| 0 <= i < s.len() ==> '\u{80}' <= #[trigger] s[i]
}

/// The consonant of the next kana settles what was waiting.
proof fn lemma_onset(s: Seq<char>, i: int, v: RomajiView, onset: char, vowel: char)
    requires
        0 <= i < s.len(),
        on_track(s, i, v),
        keys_of(s[i]) == Some((Some(onset), vowel)),
    ensures
        v.pushed(onset) == (RomajiView { output: s.take(i), pending: seq![onset] }),
{
    lemma_keys(s[i]);
    lemma_pushed(v, onset);
    let goal = RomajiView { output: s.take(i), pending: seq![onset] };
    if all_out(s, i, v) {
        assert(v.pushed(onset) =~= goal);
    } else if n_waits(s, i, v) {
        assert(s.take(i - 1).push('ん') =~= s.take(i));
        assert(rules::row_of_pair('n', onset) is None);
        assert(converter::leading_kana(seq!['n', onset]) == 'ん');
        assert(v.pushed(onset) =~= goal);
    } else if both_wait(s, i, v) {
        assert(s.take(i - 2).push('ん').push('っ') =~= s.take(i));
        assert(converter::leading_kana(seq!['n', 'y', 'y']) == 'ん');
        assert(converter::leading_kana(seq!['y', 'y']) == 'っ');
        assert(v.pushed(onset) =~= goal);
    } else {
        let o = choose|o: char| double_waits(s, i, o, v);
        assert(o == onset);
        assert(s.take(i - 1).push('っ') =~= s.take(i));
        assert(rules::row_of_pair(onset, onset) is None);
        assert(converter::leading_kana(seq![onset, onset]) == 'っ');
        assert(v.pushed(onset) =~= goal);
    }
}

/// So does the first key of a small kana.
proof fn lemma_small(s: Seq<char>, i: int, v: RomajiView)
    requires
        0 <= i < s.len(),
        on_track(s, i, v),
        keys_of(s[i]) is None,
    ensures
        v.pushed('x') == (RomajiView { output: s.take(i), pending: seq!['x'] }),
{
    lemma_pushed(v, 'x');
    let goal = RomajiView { output: s.take(i), pending: seq!['x'] };
    if n_waits(s, i, v) {
        assert(s.take(i - 1).push('ん') =~= s.take(i));
        assert(converter::leading_kana(seq!['n', 'x']) == 'ん');
        assert(v.pushed('x') =~= goal);
    } else {
        assert(all_out(s, i, v));
        assert(v.pushed('x') =~= goal);
    }
}

proof fn lemma_pushed_all_few(v: RomajiView, a: char, b: char, c: char)
    ensures
        v.pushed_all(seq![a]) == v.pushed(a),
        v.pushed_all(seq![a, b]) == v.pushed(a).pushed(b),
        v.pushed_all(seq![a, b, c]) == v.pushed(a).pushed(b).pushed(c),
{
    assert(seq![a].drop_last() =~= Seq::empty());
    assert(seq![a, b].drop_last() =~= seq![a]);
    assert(seq![a, b, c].drop_last() =~= seq![a, b]);
    assert(v.pushed_all(Seq::empty()) == v);
    assert(v.pushed_all(seq![a]) == v.pushed(a));
    assert(v.pushed_all(seq![a, b]) == v.pushed_all(seq![a]).pushed(b));
    assert(v.pushed_all(seq![a, b, c]) == v.pushed_all(seq![a, b]).pushed(c));
}

proof fn lemma_pushed_all_concat(v: RomajiView, a: Seq<char>, b: Seq<char>)
    ensures
        v.pushed_all(a + b) == v.pushed_all(a).pushed_all(b),
    decreases b.len(),
{
    if b.len() == 0 {
        assert(a + b =~= a);
    } else {
        assert((a + b).drop_last() =~= a + b.drop_last());
        lemma_pushed_all_concat(v, a, b.drop_last());
    }
}

/// The keys for a kana of a consonant and a vowel.
proof fn lemma_step_consonant(s: Seq<char>, i: int, v: RomajiView, onset: char, vowel: char)
    requires
        0 <= i < s.len(),
        on_track(s, i, v),
        keys_of(s[i]) == Some((Some(onset), vowel)),
    ensures
        i + spelling_at(s, i).1 <= s.len(),
        all_out(s, i + spelling_at(s, i).1, v.pushed_all(spelling_at(s, i).0)),
{
    lemma_onset(s, i, v, onset, vowel);
    lemma_keys(s[i]);
    let w = v.pushed(onset);
    let (keys, n) = spelling_at(s, i);
    if n == 2 {
        let small = s[i + 1];
        let y = small_y_vowel(small)->0;
        lemma_glide(s[i], onset, small);
        lemma_pushed_all_few(v, onset, 'y', y);
        lemma_pushed(w, 'y');
        let x = RomajiView { output: s.take(i), pending: seq![onset, 'y'] };
        assert(rules::kana_in_row(rules::row_of_letter(onset)->0, 'y') is None);
        assert(w.pushed('y') =~= x);
        lemma_pushed(x, y);
        assert(s.take(i) + seq![s[i], small] =~= s.take(i + 2));
        assert(x.pushed(y) =~= (RomajiView { output: s.take(i + 2), pending: Seq::empty() }));
    } else {
        lemma_pushed_all_few(v, onset, vowel, vowel);
        lemma_pushed(w, vowel);
        assert(s.take(i) + seq![s[i]] =~= s.take(i + 1));
        assert(w.pushed(vowel) =~= (RomajiView { output: s.take(i + 1), pending: Seq::empty() }));
    }
}

/// The keys for `ん`.
proof fn lemma_step_n(s: Seq<char>, i: int, v: RomajiView)
    requires
        0 <= i < s.len(),
        on_track(s, i, v),
        s[i] == 'ん',
    ensures
        spelling_at(s, i).1 == 1,
        on_track(s, i + 1, v.pushed_all(spelling_at(s, i).0)),
{
    assert(all_out(s, i, v));
    lemma_pushed(v, 'n');
    let w = RomajiView { output: s.take(i), pending: seq!['n'] };
    assert(v.pushed('n') =~= w);
    lemma_pushed_all_few(v, 'n', 'n', 'n');
    lemma_pushed(w, 'n');
    assert(s.take(i).push('ん') =~= s.take(i + 1));
    if spelling_at(s, i).0 =~= seq!['n'] {
        assert(n_waits(s, i + 1, w));
    } else {
        assert(spelling_at(s, i).0 == seq!['n', 'n']);
        assert(all_out(s, i + 1, w.pushed('n')));
    }
}

/// The keys for `っ`.
proof fn lemma_step_double(s: Seq<char>, i: int, v: RomajiView)
    requires
        0 <= i < s.len(),
        on_track(s, i, v),
        s[i] == 'っ',
    ensures
        spelling_at(s, i).1 == 1,
        on_track(s, i + 1, v.pushed_all(spelling_at(s, i).0)),
{
    lemma_small(s, i, v);
    let w = RomajiView { output: s.take(i), pending: seq!['x'] };
    let next = if i + 1 < s.len() {
        keys_of(s[i + 1])
    } else {
        None
    };
    match next {
        Some((Some(onset), vowel)) if onset != 'n' => {
            lemma_keys(s[i + 1]);
            lemma_pushed_all_few(v, onset, onset, onset);
            lemma_pushed(v, onset);
            if all_out(s, i, v) {
                let x = RomajiView { output: s.take(i), pending: seq![onset] };
                assert(v.pushed(onset) =~= x);
                assert(double_waits(s, i + 1, onset, x));
            } else {
                assert(n_waits(s, i, v));
                assert(s.take(i - 1).push('ん') =~= s.take(i));
                if onset == 'y' {
                    let x = RomajiView { output: s.take(i - 1), pending: seq!['n', 'y'] };
                    assert(v.pushed(onset) =~= x);
                    assert(both_wait(s, i + 1, x));
                } else {
                    let x = RomajiView { output: s.take(i), pending: seq![onset] };
                    assert(rules::row_of_pair('n', onset) is None);
                    assert(converter::leading_kana(seq!['n', onset]) == 'ん');
                    assert(v.pushed(onset) =~= x);
                    assert(double_waits(s, i + 1, onset, x));
                }
            }
        },
        _ => {
            assert(spelling_at(s, i).0 == seq!['x', 't', 'u']);
            lemma_pushed_all_few(v, 'x', 't', 'u');
            lemma_pushed(w, 't');
            let x = RomajiView { output: s.take(i), pending: seq!['x', 't'] };
            assert(w.pushed('t') =~= x);
            lemma_pushed(x, 'u');
            assert(s.take(i) + seq!['っ'] =~= s.take(i + 1));
            assert(all_out(s, i + 1, x.pushed('u')));
        },
    }
}

/// The keys for a small `ゃ`, `ゅ` or `ょ` on its own.
proof fn lemma_step_small_y(s: Seq<char>, i: int, v: RomajiView)
    requires
        0 <= i < s.len(),
        on_track(s, i, v),
        small_y_vowel(s[i]) is Some,
    ensures
        spelling_at(s, i).1 == 1,
        on_track(s, i + 1, v.pushed_all(spelling_at(s, i).0)),
{
    lemma_small(s, i, v);
    let y = small_y_vowel(s[i])->0;
    let w = RomajiView { output: s.take(i), pending: seq!['x'] };
    lemma_pushed_all_few(v, 'x', 'y', y);
    lemma_pushed(w, 'y');
    let x = RomajiView { output: s.take(i), pending: seq!['x', 'y'] };
    assert(w.pushed('y') =~= x);
    lemma_pushed(x, y);
    assert(s.take(i) + seq![s[i]] =~= s.take(i + 1));
    assert(all_out(s, i + 1, x.pushed(y)));
}

/// A character that stands for itself.
proof fn lemma_step_other(s: Seq<char>, i: int, v: RomajiView)
    requires
        0 <= i < s.len(),
        on_track(s, i, v),
        '\u{80}' <= s[i],
        keys_of(s[i]) is None,
        s[i] != 'ん' && s[i] != 'っ' && small_y_vowel(s[i]) is None,
    ensures
        spelling_at(s, i) == (seq![s[i]], 1int),
        on_track(s, i + 1, v.pushed_all(seq![s[i]])),
{
    let c = s[i];
    lemma_pushed_all_few(v, c, c, c);
    lemma_pushed(v, c);
    assert(s.take(i).push(c) =~= s.take(i + 1));
    if n_waits(s, i, v) {
        assert(s.take(i - 1).push('ん') =~= s.take(i));
        assert(rules::row_of_pair('n', c) is None);
        assert(converter::leading_kana(seq!['n', c]) == 'ん');
        assert(all_out(s, i + 1, v.pushed(c)));
    } else {
        assert(all_out(s, i, v));
        assert(all_out(s, i + 1, v.pushed(c)));
    }
}

proof fn lemma_step(s: Seq<char>, i: int, v: RomajiView)
    requires
        0 <= i < s.len(),
        no_ascii(s),
        on_track(s, i, v),
    ensures
        1 <= spelling_at(s, i).1,
        i + spelling_at(s, i).1 <= s.len(),
        on_track(s, i + spelling_at(s, i).1, v.pushed_all(spelling_at(s, i).0)),
{
    match keys_of(s[i]) {
        Some((Some(onset), vowel)) => {
            lemma_step_consonant(s, i, v, onset, vowel);
        },
        Some((None, vowel)) => {
            assert(all_out(s, i, v));
            lemma_keys(s[i]);
            lemma_pushed_all_few(v, vowel, vowel, vowel);
            lemma_pushed(v, vowel);
            assert(s.take(i) + seq![s[i]] =~= s.take(i + 1));
            assert(all_out(s, i + 1, v.pushed(vowel)));
        },
        None => {
            if s[i] == 'ん' {
                lemma_step_n(s, i, v);
            } else if s[i] == 'っ' {
                lemma_step_double(s, i, v);
            } else if small_y_vowel(s[i]) is Some {
                lemma_step_small_y(s, i, v);
            } else {
                lemma_step_other(s, i, v);
            }
        },
    }
}

proof fn lemma_spelled_back(s: Seq<char>, i: int, v: RomajiView)
    requires
        0 <= i <= s.len(),
        no_ascii(s),
        on_track(s, i, v),
    ensures
        v.pushed_all(spelling_from(s, i)).flushed().output == s,
    decreases s.len() - i,
{
    if i == s.len() {
        assert(spelling_from(s, i) =~= Seq::empty());
        if all_out(s, i, v) {
            assert(!(v.pending =~= seq!['n'])) by {
                assert(seq!['n'].len() == 1);
            }
            assert(s.take(i) + Seq::<char>::empty() =~= s);
        } else {
            assert(n_waits(s, i, v));
            assert(s.take(i - 1).push('ん') =~= s);
        }
    } else {
        lemma_step(s, i, v);
        let (keys, n) = spelling_at(s, i);
        lemma_pushed_all_concat(v, keys, spelling_from(s, i + n));
        lemma_spelled_back(s, i + n, v.pushed_all(keys));
    }
}

/// Typing the keys for a text gives the text back, as long as it holds no ASCII
/// characters, which would be taken for keys themselves.
pub proof fn law_spelling_types_the_text(s: Seq<char>)
    requires
        forall|i: int| 0 <= i < s.len() ==> '\u{80}' <= #[trigger] s[i],
    ensures
        converter::romaji_to_kana(spelling_from(s, 0)) == s,
{
    assert(s.take(0) =~= Seq::empty());
    assert(all_out(s, 0, RomajiView::empty()));
    lemma_spelled_back(s, 0, RomajiView::empty());
}

proof fn lemma_katakana_from(s: Seq<char>, i: int)
    requires
        0 <= i <= s.len(),
        forall|j: int| 0 <= j < s.len() ==> text::is_full_katakana(#[trigger] s[j]),
    ensures
        spelling_from(s, i) == s.skip(i),
    decreases s.len() - i,
{
    if i < s.len() {
        lemma_katakana_from(s, i + 1);
        assert(text::is_full_katakana(s[i]));
        assert(spelling_at(s, i) == (seq![s[i]], 1int));
        assert(s.skip(i) =~= seq![s[i]] + s.skip(i + 1));
    } else {
        assert(s.skip(i) =~= Seq::empty());
    }
}

/// Katakana has no keys: it stands for itself.
pub proof fn law_katakana_stands_for_itself(s: Seq<char>)
    requires
        forall|i: int| 0 <= i < s.len() ==> text::is_full_katakana(#[trigger] s[i]),
    ensures
        spelling_from(s, 0) == s,
{
    lemma_katakana_from(s, 0);
    assert(s.skip(0) =~= s);
}

} // verus!
