//! Which slips of typing are repaired, said over the text and the keyboard themselves.
use super::converter;
use super::fuzzy;
use super::fuzzy::{EditType, HypothesisView};
use super::reverse;
use crate::distinct;
use crate::distinct::Keyed;
use crate::text;
use vstd::prelude::*;

verus! {

/// A lower case letter `a`-`z`.
pub open spec fn lower(c: char) -> bool {
    'a' <= c && c <= 'z'
}

/// Hiragana or katakana, U+3041 to U+30FF.
pub open spec fn kana(c: char) -> bool {
    '\u{3041}' <= c && c <= '\u{30FF}'
}

/// The letters from `start` to `end` are a run of letters `a`-`z` that goes no further
/// on either side, and next to it on one side at least is a kana.
pub open spec fn is_stranded(chars: Seq<char>, start: int, end: int) -> bool {
    &&& 0 <= start < end <= chars.len()
    &&& forall|j: int| start <= j < end ==> lower(#[trigger] chars[j])
    &&& start > 0 ==> !lower(chars[start - 1])
    &&& end < chars.len() ==> !lower(chars[end])
    &&& (start > 0 && kana(chars[start - 1])) || (end < chars.len() && kana(chars[end]))
}

/// The letters from `start` to `end` are replaced by the kana that `spelling` converts
/// to, which leaves no ASCII character in the text; nothing but kana may come out.
pub open spec fn mends(
    chars: Seq<char>,
    start: int,
    end: int,
    spelling: Seq<char>,
    reading: Seq<char>,
) -> bool {
    let out = converter::romaji_to_kana(spelling);
    &&& reading == chars.take(start) + out + chars.skip(end)
    &&& out.len() > 0
    &&& forall|i: int| 0 <= i < out.len() ==> !lower(#[trigger] out[i])
    &&& forall|i: int| 0 <= i < reading.len() ==> '\u{80}' <= (#[trigger] reading[i])
}

/// The cap leaves room for every repair.
pub open spec fn room_for_all(chars: Seq<char>, max: nat) -> bool {
    30 * fuzzy::stranded(chars).len() <= max
}

/// The row of a letter key, from the top, and its place in the row, from the left.
pub open spec fn key_place(c: char) -> Option<(int, int)> {
    match c {
        'q' => Some((0, 0)),
        'w' => Some((0, 1)),
        'e' => Some((0, 2)),
        'r' => Some((0, 3)),
        't' => Some((0, 4)),
        'y' => Some((0, 5)),
        'u' => Some((0, 6)),
        'i' => Some((0, 7)),
        'o' => Some((0, 8)),
        'p' => Some((0, 9)),
        'a' => Some((1, 0)),
        's' => Some((1, 1)),
        'd' => Some((1, 2)),
        'f' => Some((1, 3)),
        'g' => Some((1, 4)),
        'h' => Some((1, 5)),
        'j' => Some((1, 6)),
        'k' => Some((1, 7)),
        'l' => Some((1, 8)),
        'z' => Some((2, 0)),
        'x' => Some((2, 1)),
        'c' => Some((2, 2)),
        'v' => Some((2, 3)),
        'b' => Some((2, 4)),
        'n' => Some((2, 5)),
        'm' => Some((2, 6)),
        _ => None,
    }
}

/// A finger that aims at the key `a` may hit `b`: a key next to it in its row, or one
/// that touches it in the row above or below. The lower rows are shifted to the right;
/// from the top row three keys are in reach below, and from `a` also `x`.
pub open spec fn in_reach(a: char, b: char) -> bool {
    match (key_place(a), key_place(b)) {
        (Some((r, c)), Some((s, d))) => {
            ||| r == s && (d == c - 1 || d == c + 1)
            ||| r == 0 && s == 1 && c - 1 <= d <= c + 1
            ||| r == 1 && s == 0 && c <= d <= c + 1
            ||| r == 1 && s == 2 && c - 1 <= d <= c
            ||| r == 2 && s == 1 && c <= d <= c + 1
            ||| a == 'a' && b == 'x'
        },
        _ => false,
    }
}

/// The neighbors of a key are the letters in reach of it, each once.
pub proof fn law_neighbors_are_in_reach(a: char, b: char)
    ensures
        fuzzy::neighbors_of(a).contains(b) <==> in_reach(a, b),
        fuzzy::neighbors_of(a).no_duplicates(),
        fuzzy::neighbors_of(a).len() <= 6,
{
    let n = fuzzy::neighbors_of(a);
    assert(n.contains(b) <==> ((n.len() > 0 && n[0] == b) || (n.len() > 1 && n[1] == b) || (n.len()
        > 2 && n[2] == b) || (n.len() > 3 && n[3] == b) || (n.len() > 4 && n[4] == b) || (n.len()
        > 5 && n[5] == b))) by {
        if n.contains(b) {
            let i = choose|i: int| 0 <= i < n.len() && n[i] == b;
        }
    }
}

/// The stranded segments are exactly the runs of letters `a`-`z` next to a kana, each
/// with its letters as they stand in the text.
pub proof fn law_stranded_segments(chars: Seq<char>, start: int, seg: Seq<char>)
    ensures
        fuzzy::stranded(chars).contains((start, seg)) <==> is_stranded(
            chars,
            start,
            start + seg.len(),
        ) && seg == chars.subrange(start, start + seg.len()),
{
    let all = fuzzy::stranded(chars);
    let end = start + seg.len();
    if all.contains((start, seg)) {
        let k = choose|k: int| 0 <= k < all.len() && all[k] == (start, seg);
        fuzzy::law_stranded_is_run(chars, k);
    }
    if is_stranded(chars, start, end) && seg == chars.subrange(start, end) {
        assert(fuzzy::is_run(chars, start, end));
        assert(fuzzy::touches_kana(chars, start, end));
        fuzzy::law_stranded_complete(chars, start, end);
    }
}

spec fn vowel_index(v: char) -> int {
    if v == 'a' {
        0
    } else if v == 'i' {
        1
    } else if v == 'u' {
        2
    } else if v == 'e' {
        3
    } else {
        4
    }
}

/// A vowel.
pub open spec fn vowel(v: char) -> bool {
    v == 'a' || v == 'i' || v == 'u' || v == 'e' || v == 'o'
}

proof fn lemma_insertions_before(seg: Seq<char>, n: nat)
    ensures
        fuzzy::insertions_before(seg, n).len() == 5 * n,
        forall|p: int, i: int|
            0 <= p < n && 0 <= i < 5 ==> fuzzy::insertions_before(seg, n)[5 * p + i] == (
            #[trigger] seg.insert(p, #[trigger] fuzzy::VOWELS@[i])),
    decreases n,
{
    if n > 0 {
        lemma_insertions_before(seg, (n - 1) as nat);
    }
}

proof fn lemma_substitutions_before(seg: Seq<char>, n: nat)
    requires
        n <= seg.len(),
    ensures
        fuzzy::substitutions_before(seg, n).len() <= 6 * n,
        forall|p: int, c: char|
            0 <= p < n && in_reach(seg[p], c) ==> fuzzy::substitutions_before(seg, n).contains(
                #[trigger] seg.update(p, c),
            ),
        forall|i: int|
            0 <= i < fuzzy::substitutions_before(seg, n).len() ==> is_substitution(
                seg,
                #[trigger] fuzzy::substitutions_before(seg, n)[i],
            ),
    decreases n,
{
    if n > 0 {
        let m = (n - 1) as nat;
        lemma_substitutions_before(seg, m);
        let before = fuzzy::substitutions_before(seg, m);
        let here = fuzzy::substitutions_at(seg, m as int);
        let all = fuzzy::substitutions_before(seg, n);
        let near = fuzzy::neighbors_of(seg[m as int]);
        assert(near.len() <= 6) by {
            law_neighbors_are_in_reach(seg[m as int], 'a');
        }
        assert forall|p: int, c: char| 0 <= p < n && in_reach(seg[p], c) implies all.contains(
            #[trigger] seg.update(p, c),
        ) by {
            if p < m {
                assert(before.contains(seg.update(p, c)));
                let j = choose|j: int| 0 <= j < before.len() && before[j] == seg.update(p, c);
                assert(all[j] == before[j]);
            } else {
                law_neighbors_are_in_reach(seg[p], c);
                let j = choose|j: int| 0 <= j < near.len() && near[j] == c;
                assert(here[j] == seg.update(p, c));
                assert(all[before.len() + j] == here[j]);
            }
        }
        assert forall|i: int| 0 <= i < all.len() implies is_substitution(
            seg,
            #[trigger] all[i],
        ) by {
            if i < before.len() {
                assert(all[i] == before[i]);
            } else {
                let j = i - before.len();
                assert(all[i] == here[j]);
                let c = near[j];
                assert(near.contains(c));
                law_neighbors_are_in_reach(seg[m as int], c);
                assert(all[i] == seg.update(m as int, c));
            }
        }
    }
}

/// One letter was replaced by one in reach of it.
pub open spec fn is_substitution(seg: Seq<char>, s: Seq<char>) -> bool {
    exists|p: int, c: char|
        #![trigger seg.update(p, c)]
        0 <= p < seg.len() && in_reach(seg[p], c) && s == seg.update(p, c)
}

/// One vowel was put in somewhere.
pub open spec fn is_insertion(seg: Seq<char>, s: Seq<char>) -> bool {
    exists|p: int, v: char|
        #![trigger seg.insert(p, v)]
        0 <= p <= seg.len() && vowel(v) && s == seg.insert(p, v)
}

/// One letter was left out.
pub open spec fn is_deletion(seg: Seq<char>, s: Seq<char>) -> bool {
    exists|p: int| 0 <= p < seg.len() && s == #[trigger] seg.remove(p)
}

/// Two letters next to each other have changed places.
pub open spec fn is_transposition(seg: Seq<char>, s: Seq<char>) -> bool {
    &&& s.len() == seg.len()
    &&& exists|p: int|
        #![trigger seg[p]]
        0 <= p < seg.len() - 1 && s[p] == seg[p + 1] && s[p + 1] == seg[p] && forall|q: int|
            0 <= q < seg.len() && q != p && q != p + 1 ==> s[q] == seg[q]
}

/// The spelling came about by one edit of this type.
pub open spec fn is_edit(seg: Seq<char>, s: Seq<char>, edit_type: EditType) -> bool {
    match edit_type {
        EditType::Insertion => is_insertion(seg, s),
        EditType::Deletion => is_deletion(seg, s),
        EditType::Substitution => is_substitution(seg, s),
        EditType::Transposition => is_transposition(seg, s),
    }
}

proof fn lemma_tagged_contains(spellings: Seq<Seq<char>>, edit_type: EditType, s: Seq<char>)
    requires
        spellings.contains(s),
    ensures
        fuzzy::tagged(spellings, edit_type).contains((s, edit_type)),
{
    let i = choose|i: int| 0 <= i < spellings.len() && spellings[i] == s;
    assert(fuzzy::tagged(spellings, edit_type)[i] == (s, edit_type));
}

proof fn lemma_contains_concat<A>(a: Seq<A>, b: Seq<A>, x: A)
    ensures
        (a + b).contains(x) <==> a.contains(x) || b.contains(x),
{
    let all = a + b;
    if a.contains(x) {
        let i = choose|i: int| 0 <= i < a.len() && a[i] == x;
        assert(all[i] == x);
    }
    if b.contains(x) {
        let i = choose|i: int| 0 <= i < b.len() && b[i] == x;
        assert(all[a.len() + i] == x);
    }
    if all.contains(x) {
        let i = choose|i: int| 0 <= i < all.len() && all[i] == x;
        if i < a.len() {
            assert(a[i] == x);
        } else {
            assert(b[i - a.len()] == x);
        }
    }
}

proof fn lemma_in_edits(seg: Seq<char>, e: (Seq<char>, EditType))
    ensures
        fuzzy::edits(seg).contains(e) <==> {
            ||| fuzzy::tagged(fuzzy::insertions(seg), EditType::Insertion).contains(e)
            ||| fuzzy::tagged(fuzzy::deletions(seg), EditType::Deletion).contains(e)
            ||| fuzzy::tagged(fuzzy::substitutions(seg), EditType::Substitution).contains(e)
            ||| fuzzy::tagged(fuzzy::transpositions(seg), EditType::Transposition).contains(e)
        },
{
    let a = fuzzy::tagged(fuzzy::insertions(seg), EditType::Insertion);
    let b = fuzzy::tagged(fuzzy::deletions(seg), EditType::Deletion);
    let c = fuzzy::tagged(fuzzy::substitutions(seg), EditType::Substitution);
    let d = fuzzy::tagged(fuzzy::transpositions(seg), EditType::Transposition);
    lemma_contains_concat(a, b, e);
    lemma_contains_concat(a + b, c, e);
    lemma_contains_concat(a + b + c, d, e);
}

proof fn lemma_swapped(seg: Seq<char>, s: Seq<char>, p: int)
    requires
        0 <= p < seg.len() - 1,
        s.len() == seg.len(),
        s[p] == seg[p + 1],
        s[p + 1] == seg[p],
        forall|q: int| 0 <= q < seg.len() && q != p && q != p + 1 ==> s[q] == seg[q],
    ensures
        fuzzy::transpositions(seg).contains(s),
{
    assert(fuzzy::swapped(seg, p) =~= s);
    assert(fuzzy::transpositions(seg)[p] == s);
}

/// Every edit of this kind is among the edits that are tried.
proof fn lemma_edit_is_tried(seg: Seq<char>, s: Seq<char>, edit_type: EditType)
    requires
        is_edit(seg, s, edit_type),
    ensures
        fuzzy::edits(seg).contains((s, edit_type)),
{
    lemma_in_edits(seg, (s, edit_type));
    match edit_type {
        EditType::Insertion => {
            let (p, v) = choose|p: int, v: char|
                #![trigger seg.insert(p, v)]
                0 <= p <= seg.len() && vowel(v) && s == seg.insert(p, v);
            lemma_insertions_before(seg, seg.len() + 1);
            let i = vowel_index(v);
            assert(fuzzy::VOWELS@[i] == v);
            assert(fuzzy::insertions(seg)[5 * p + i] == seg.insert(p, fuzzy::VOWELS@[i]));
            assert(0 <= 5 * p + i < fuzzy::insertions(seg).len());
            lemma_tagged_contains(fuzzy::insertions(seg), edit_type, s);
        },
        EditType::Deletion => {
            let p = choose|p: int| 0 <= p < seg.len() && s == #[trigger] seg.remove(p);
            assert(fuzzy::deletions(seg)[p] == s);
            lemma_tagged_contains(fuzzy::deletions(seg), edit_type, s);
        },
        EditType::Substitution => {
            let (p, c) = choose|p: int, c: char|
                #![trigger seg.update(p, c)]
                0 <= p < seg.len() && in_reach(seg[p], c) && s == seg.update(p, c);
            lemma_substitutions_before(seg, seg.len());
            lemma_tagged_contains(fuzzy::substitutions(seg), edit_type, s);
        },
        EditType::Transposition => {
            let p = choose|p: int|
                #![trigger seg[p]]
                0 <= p < seg.len() - 1 && s[p] == seg[p + 1] && s[p + 1] == seg[p] && forall|q: int|
                    0 <= q < seg.len() && q != p && q != p + 1 ==> s[q] == seg[q];
            lemma_swapped(seg, s, p);
            lemma_tagged_contains(fuzzy::transpositions(seg), edit_type, s);
        },
    }
}

/// What is tried is an edit of its kind.
proof fn lemma_tried_is_edit(seg: Seq<char>, e: (Seq<char>, EditType))
    requires
        fuzzy::edits(seg).contains(e),
    ensures
        is_edit(seg, e.0, e.1),
{
    lemma_in_edits(seg, e);
    lemma_insertions_before(seg, seg.len() + 1);
    lemma_substitutions_before(seg, seg.len());
    let a = fuzzy::tagged(fuzzy::insertions(seg), EditType::Insertion);
    let b = fuzzy::tagged(fuzzy::deletions(seg), EditType::Deletion);
    let c = fuzzy::tagged(fuzzy::substitutions(seg), EditType::Substitution);
    let d = fuzzy::tagged(fuzzy::transpositions(seg), EditType::Transposition);
    if a.contains(e) {
        let i = choose|i: int| 0 <= i < a.len() && a[i] == e;
        let p = i / 5;
        let v = fuzzy::VOWELS@[i % 5];
        assert(i == 5 * p + i % 5);
        assert(0 <= p <= seg.len());
        assert(fuzzy::insertions(seg)[5 * p + i % 5] == seg.insert(p, fuzzy::VOWELS@[i % 5]));
        assert(vowel(v));
        assert(e.0 == seg.insert(p, v));
    } else if b.contains(e) {
        let i = choose|i: int| 0 <= i < b.len() && b[i] == e;
        assert(e.0 == seg.remove(i));
    } else if c.contains(e) {
        let i = choose|i: int| 0 <= i < c.len() && c[i] == e;
        assert(is_substitution(seg, fuzzy::substitutions(seg)[i]));
    } else {
        let i = choose|i: int| 0 <= i < d.len() && d[i] == e;
        let s = fuzzy::swapped(seg, i);
        assert(e.0 == s);
        assert(s[i] == seg[i + 1]);
    }
}

proof fn lemma_edits_few(seg: Seq<char>)
    requires
        seg.len() <= 2,
    ensures
        fuzzy::edits(seg).len() <= 30,
{
    lemma_insertions_before(seg, seg.len() + 1);
    lemma_substitutions_before(seg, seg.len());
}

proof fn lemma_repairs_of_few(
    chars: Seq<char>,
    start: int,
    len: int,
    candidates: Seq<(Seq<char>, EditType)>,
)
    ensures
        fuzzy::repairs_of(chars, start, len, candidates).len() <= candidates.len(),
    decreases candidates.len(),
{
    if candidates.len() > 0 {
        lemma_repairs_of_few(chars, start, len, candidates.drop_last());
    }
}

proof fn lemma_all_repairs_few(chars: Seq<char>, segments: Seq<(int, Seq<char>)>)
    ensures
        fuzzy::all_repairs(chars, segments).len() <= 30 * segments.len(),
    decreases segments.len(),
{
    if segments.len() > 0 {
        lemma_all_repairs_few(chars, segments.drop_last());
        let (start, seg) = segments.last();
        if seg.len() < 3 {
            lemma_edits_few(seg);
            lemma_repairs_of_few(chars, start, seg.len() as int, fuzzy::edits(seg));
        }
    }
}

proof fn lemma_no_ascii(reading: Seq<char>)
    requires
        forall|i: int| 0 <= i < reading.len() ==> '\u{80}' <= (#[trigger] reading[i]),
    ensures
        !text::has_ascii(reading),
{
    if text::has_ascii(reading) {
        let i = choose|i: int| 0 <= i < reading.len() && text::is_ascii(#[trigger] reading[i]);
        assert('\u{80}' <= reading[i]);
    }
}

/// A slip of one key in one or two stranded letters is repaired: a vowel left out at any
/// place, a letter too many, a letter of a key in reach of the right one, or two letters
/// in the wrong order. Where the right spelling makes kana of the letters and no ASCII
/// character remains, the text with that kana in their place is among the readings.
pub proof fn law_slip_is_repaired(
    chars: Seq<char>,
    max: nat,
    start: int,
    end: int,
    spelling: Seq<char>,
    edit_type: EditType,
    reading: Seq<char>,
)
    requires
        is_stranded(chars, start, end),
        end - start <= 2,
        is_edit(chars.subrange(start, end), spelling, edit_type),
        mends(chars, start, end, spelling, reading),
        room_for_all(chars, max),
    ensures
        distinct::has_key(fuzzy::hypotheses(chars, max), reading),
{
    let seg = chars.subrange(start, end);
    let all = fuzzy::stranded(chars);
    law_stranded_segments(chars, start, seg);
    let k = choose|k: int| 0 <= k < all.len() && all[k] == (start, seg);
    lemma_edit_is_tried(seg, spelling, edit_type);
    let e = (spelling, edit_type);
    let h = HypothesisView { reading, edit_type };
    let out = converter::romaji_to_kana(spelling);
    assert(!fuzzy::has_ascii_lower(out)) by {
        if fuzzy::has_ascii_lower(out) {
            let i = choose|i: int|
                0 <= i < out.len() && text::is_ascii_lower(#[trigger] out[i]);
            assert(lower(out[i]));
        }
    }
    if spelling.len() == 0 {
        assert(converter::romaji_to_kana(spelling) =~= Seq::empty()) by {
            assert(converter::RomajiView::empty().pushed_all(spelling)
                == converter::RomajiView::empty());
            converter::law_kana_passes_through(spelling);
        }
    }
    assert(fuzzy::replacement(spelling) == Some(out));
    assert(fuzzy::is_repair(chars, all[k], e, h));
    lemma_no_ascii(reading);
    lemma_all_repairs_few(chars, all);
    fuzzy::law_repair_is_offered(chars, max, k, e, h);
}

/// A vowel that was left out, before, between or behind one or two stranded letters, is
/// put in.
pub proof fn law_missing_vowel_is_repaired(
    chars: Seq<char>,
    max: nat,
    start: int,
    end: int,
    p: int,
    v: char,
    reading: Seq<char>,
)
    requires
        is_stranded(chars, start, end),
        end - start <= 2,
        0 <= p <= end - start,
        v == 'a' || v == 'i' || v == 'u' || v == 'e' || v == 'o',
        mends(chars, start, end, chars.subrange(start, end).insert(p, v), reading),
        room_for_all(chars, max),
    ensures
        distinct::has_key(fuzzy::hypotheses(chars, max), reading),
{
    let seg = chars.subrange(start, end);
    assert(is_insertion(seg, seg.insert(p, v)));
    law_slip_is_repaired(chars, max, start, end, seg.insert(p, v), EditType::Insertion, reading);
}

/// A single stranded letter may be one too many: the text without it is among the
/// readings.
pub proof fn law_stray_letter_is_dropped(chars: Seq<char>, max: nat, start: int)
    requires
        is_stranded(chars, start, start + 1),
        forall|i: int|
            0 <= i < chars.remove(start).len() ==> '\u{80}' <= (#[trigger] chars.remove(start)[i]),
        room_for_all(chars, max),
    ensures
        distinct::has_key(fuzzy::hypotheses(chars, max), chars.remove(start)),
{
    let seg = chars.subrange(start, start + 1);
    let all = fuzzy::stranded(chars);
    law_stranded_segments(chars, start, seg);
    let k = choose|k: int| 0 <= k < all.len() && all[k] == (start, seg);
    let none = seg.remove(0);
    assert(none =~= Seq::empty());
    assert(is_deletion(seg, none));
    lemma_edit_is_tried(seg, none, EditType::Deletion);
    let reading = chars.remove(start);
    let h = HypothesisView { reading, edit_type: EditType::Deletion };
    assert(reading =~= fuzzy::rebuilt(chars, start, 1, Seq::empty()));
    assert(fuzzy::is_repair(chars, all[k], (none, EditType::Deletion), h));
    lemma_no_ascii(reading);
    lemma_all_repairs_few(chars, all);
    fuzzy::law_repair_is_offered(chars, max, k, (none, EditType::Deletion), h);
}

/// The hypothesis puts right the letters from `start` to `end` by one edit, and leaves
/// the text before and behind them as it is.
pub open spec fn explains(
    chars: Seq<char>,
    h: HypothesisView,
    start: int,
    end: int,
    spelling: Seq<char>,
) -> bool {
    let out = if spelling.len() == 0 {
        Seq::empty()
    } else {
        converter::romaji_to_kana(spelling)
    };
    &&& is_stranded(chars, start, end)
    &&& end - start <= 2
    &&& is_edit(chars.subrange(start, end), spelling, h.edit_type)
    &&& spelling.len() > 0 ==> out.len() > 0
    &&& h.reading == chars.take(start) + out + chars.skip(end)
}

/// Every hypothesis comes from one edit of one or two stranded letters, of the type that
/// it says, and is free of ASCII characters; and no reading comes twice.
pub proof fn law_hypotheses_are_explained(chars: Seq<char>, max: nat, i: int)
    requires
        0 <= i < fuzzy::hypotheses(chars, max).len(),
    ensures
        exists|start: int, end: int, spelling: Seq<char>|
            explains(chars, fuzzy::hypotheses(chars, max)[i], start, end, spelling),
        forall|j: int|
            0 <= j < fuzzy::hypotheses(chars, max)[i].reading.len() ==> '\u{80}' <= (
            #[trigger] fuzzy::hypotheses(chars, max)[i].reading[j]),
        forall|j: int|
            0 <= j < fuzzy::hypotheses(chars, max).len() && j != i ==> (#[trigger] fuzzy::hypotheses(
                chars,
                max,
            )[j]).reading != fuzzy::hypotheses(chars, max)[i].reading,
        fuzzy::hypotheses(chars, max).len() <= max,
{
    let all = fuzzy::hypotheses(chars, max);
    let h = all[i];
    fuzzy::law_hypothesis_is_repair(chars, max, i);
    let segs = fuzzy::stranded(chars);
    let (k, e) = choose|k: int, e: (Seq<char>, EditType)|
        0 <= k < segs.len() && #[trigger] fuzzy::is_repair(chars, segs[k], e, h);
    let (start, seg) = segs[k];
    let end = start + seg.len();
    assert(segs.contains((start, seg)));
    law_stranded_segments(chars, start, seg);
    lemma_tried_is_edit(seg, e);
    assert(explains(chars, h, start, end, e.0));
    fuzzy::law_hypotheses_clean(chars, max);
    fuzzy::law_hypotheses_distinct(chars, max);
    assert forall|j: int| 0 <= j < h.reading.len() implies '\u{80}' <= (#[trigger] h.reading[j]) by {
        if !('\u{80}' <= h.reading[j]) {
            assert(text::is_ascii(h.reading[j]));
        }
    }
    assert forall|j: int| 0 <= j < all.len() && j != i implies (#[trigger] all[j]).reading
        != h.reading by {
        assert(all[j].key() == all[j].reading);
        assert(all[i].key() == all[i].reading);
    }
}

/// The order in which the types of edits are tried.
pub open spec fn edit_rank(t: EditType) -> int {
    match t {
        EditType::Insertion => 0,
        EditType::Deletion => 1,
        EditType::Substitution => 2,
        EditType::Transposition => 3,
    }
}

spec fn ranked(list: Seq<HypothesisView>) -> bool {
    forall|i: int, j: int|
        0 <= i < j < list.len() ==> edit_rank((#[trigger] list[i]).edit_type) <= edit_rank(
            (#[trigger] list[j]).edit_type,
        )
}

spec fn ranked_up_to(list: Seq<HypothesisView>, r: int) -> bool {
    forall|i: int| 0 <= i < list.len() ==> edit_rank((#[trigger] list[i]).edit_type) <= r
}

spec fn ranked_edits(list: Seq<(Seq<char>, EditType)>) -> bool {
    forall|i: int, j: int|
        0 <= i < j < list.len() ==> edit_rank((#[trigger] list[i]).1) <= edit_rank(
            (#[trigger] list[j]).1,
        )
}

proof fn lemma_repairs_ranked(
    chars: Seq<char>,
    start: int,
    len: int,
    candidates: Seq<(Seq<char>, EditType)>,
)
    requires
        ranked_edits(candidates),
    ensures
        ranked(fuzzy::repairs_of(chars, start, len, candidates)),
        candidates.len() > 0 ==> ranked_up_to(
            fuzzy::repairs_of(chars, start, len, candidates),
            edit_rank(candidates.last().1),
        ),
    decreases candidates.len(),
{
    if candidates.len() > 0 {
        let front = candidates.drop_last();
        lemma_repairs_ranked(chars, start, len, front);
        if front.len() > 0 {
            assert(edit_rank(candidates[front.len() - 1].1) <= edit_rank(
                candidates[candidates.len() - 1].1,
            ));
        }
    }
}

proof fn lemma_first_of_each_ranked(items: Seq<HypothesisView>)
    requires
        ranked(items),
    ensures
        ranked(distinct::first_of_each(items)),
        items.len() > 0 ==> ranked_up_to(
            distinct::first_of_each(items),
            edit_rank(items.last().edit_type),
        ),
    decreases items.len(),
{
    if items.len() > 0 {
        let front = items.drop_last();
        lemma_first_of_each_ranked(front);
        if front.len() > 0 {
            assert(edit_rank(items[front.len() - 1].edit_type) <= edit_rank(
                items[items.len() - 1].edit_type,
            ));
        }
    }
}

proof fn lemma_repaired_ranked(list: Seq<HypothesisView>)
    requires
        ranked(list),
    ensures
        ranked(fuzzy::fully_repaired(list)),
        list.len() > 0 ==> ranked_up_to(
            fuzzy::fully_repaired(list),
            edit_rank(list.last().edit_type),
        ),
    decreases list.len(),
{
    if list.len() > 0 {
        let front = list.drop_last();
        lemma_repaired_ranked(front);
        if front.len() > 0 {
            assert(edit_rank(list[front.len() - 1].edit_type) <= edit_rank(
                list[list.len() - 1].edit_type,
            ));
        }
    }
}

/// With two stranded segments no single edit clears the text of letters.
pub proof fn law_two_segments_are_not_repaired(chars: Seq<char>, max: nat)
    requires
        fuzzy::stranded(chars).len() >= 2,
    ensures
        fuzzy::hypotheses(chars, max).len() == 0,
{
    let all = fuzzy::hypotheses(chars, max);
    if all.len() > 0 {
        law_hypotheses_are_explained(chars, max, 0);
        let h = all[0];
        let (start, end, spelling) = choose|start: int, end: int, spelling: Seq<char>|
            explains(chars, h, start, end, spelling);
        let segs = fuzzy::stranded(chars);
        fuzzy::law_stranded_ordered(chars, 0, 1);
        let other = if segs[0].0 == start {
            1int
        } else {
            0int
        };
        let (a, seg) = segs[other];
        assert(a != start);
        assert(segs.contains((a, seg)));
        law_stranded_segments(chars, a, seg);
        let b = a + seg.len();
        assert(lower(chars[a]));
        let out = if spelling.len() == 0 {
            Seq::empty()
        } else {
            converter::romaji_to_kana(spelling)
        };
        if a < start {
            assert(h.reading[a] == chars[a]);
        } else {
            if a < end {
                assert(lower(chars[a - 1]));
            }
            let at = start + out.len() + (a - end);
            assert(h.reading[at] == chars[a]);
        }
        assert(false);
    }
}

/// Hypotheses come in the order in which the edits are tried: missing vowels, then
/// letters too many, then wrong keys, then letters in the wrong order.
pub proof fn law_hypotheses_in_order_of_edits(chars: Seq<char>, max: nat)
    ensures
        forall|i: int, j: int|
            0 <= i < j < fuzzy::hypotheses(chars, max).len() ==> edit_rank(
                (#[trigger] fuzzy::hypotheses(chars, max)[i]).edit_type,
            ) <= edit_rank((#[trigger] fuzzy::hypotheses(chars, max)[j]).edit_type),
{
    let segs = fuzzy::stranded(chars);
    if segs.len() >= 2 {
        law_two_segments_are_not_repaired(chars, max);
    } else {
        let all = fuzzy::all_repairs(chars, segs);
        if segs.len() == 1 {
            let (start, seg) = segs[0];
            assert(segs.drop_last() =~= Seq::empty());
            assert(fuzzy::all_repairs(chars, segs.drop_last()) =~= Seq::empty());
            assert(all =~= fuzzy::segment_repairs(chars, segs[0]));
            if seg.len() < 3 {
                assert(ranked_edits(fuzzy::edits(seg)));
                lemma_repairs_ranked(chars, start, seg.len() as int, fuzzy::edits(seg));
            }
        }
        assert(ranked(all));
        lemma_first_of_each_ranked(all);
        let cut = distinct::at_most(distinct::first_of_each(all), max);
        assert(ranked(cut));
        lemma_repaired_ranked(cut);
    }
}

/// The `i`-th vowel, in the order in which they are tried.
pub open spec fn nth_vowel(i: int) -> char {
    if i == 0 {
        'a'
    } else if i == 1 {
        'i'
    } else if i == 2 {
        'u'
    } else if i == 3 {
        'e'
    } else {
        'o'
    }
}

/// One letter of `s` differs from `seg`, at `p`.
pub open spec fn differs_at(seg: Seq<char>, s: Seq<char>, p: int) -> bool {
    0 <= p < seg.len() && s == seg.update(p, s[p]) && s[p] != seg[p]
}

proof fn lemma_substitution_places(seg: Seq<char>, n: nat)
    requires
        n <= seg.len(),
    ensures
        forall|x: int, y: int, p: int, q: int|
            0 <= x < y < fuzzy::substitutions_before(seg, n).len() && #[trigger] differs_at(
                seg,
                fuzzy::substitutions_before(seg, n)[x],
                p,
            ) && #[trigger] differs_at(seg, fuzzy::substitutions_before(seg, n)[y], q) ==> p <= q,
        forall|x: int, p: int|
            0 <= x < fuzzy::substitutions_before(seg, n).len() && #[trigger] differs_at(
                seg,
                fuzzy::substitutions_before(seg, n)[x],
                p,
            ) ==> p < n,
    decreases n,
{
    if n > 0 {
        let m = (n - 1) as nat;
        lemma_substitution_places(seg, m);
        let before = fuzzy::substitutions_before(seg, m);
        let here = fuzzy::substitutions_at(seg, m as int);
        let all = fuzzy::substitutions_before(seg, n);
        let near = fuzzy::neighbors_of(seg[m as int]);
        assert forall|x: int, p: int|
            before.len() <= x < all.len() && #[trigger] differs_at(seg, all[x], p) implies p
            == m by {
            let j = x - before.len();
            assert(all[x] == here[j]);
            assert(here[j] == seg.update(m as int, near[j]));
            if p != m {
                assert(all[x][p] == seg[p]);
            }
        }
        assert forall|x: int, p: int|
            0 <= x < all.len() && #[trigger] differs_at(seg, all[x], p) implies p < n by {
            if x < before.len() {
                assert(all[x] == before[x]);
                assert(differs_at(seg, before[x], p));
            }
        }
        assert forall|x: int, y: int, p: int, q: int|
            0 <= x < y < all.len() && #[trigger] differs_at(seg, all[x], p)
                && #[trigger] differs_at(seg, all[y], q) implies p <= q by {
            if x < before.len() {
                assert(all[x] == before[x]);
                assert(differs_at(seg, before[x], p));
                if y < before.len() {
                    assert(all[y] == before[y]);
                    assert(differs_at(seg, before[y], q));
                }
            }
        }
    }
}

/// The order in which the edits of `n` letters are tried: each vowel put in at each place,
/// from the front on; each letter left out; each letter replaced, from the front on; and
/// each two letters in a row swapped.
pub proof fn law_order_of_edits(seg: Seq<char>)
    ensures
        ({
            let n = seg.len() as int;
            let all = fuzzy::edits(seg);
            let subs = fuzzy::substitutions(seg).len() as int;
            let swaps = if n >= 2 {
                n - 1
            } else {
                0
            };
            &&& all.len() == 5 * (n + 1) + n + subs + swaps
            &&& forall|p: int, i: int|
                0 <= p <= n && 0 <= i < 5 ==> #[trigger] all[5 * p + i] == (
                    seg.insert(p, nth_vowel(i)),
                    EditType::Insertion,
                )
            &&& forall|p: int|
                0 <= p < n ==> #[trigger] all[5 * (n + 1) + p] == (
                    seg.remove(p),
                    EditType::Deletion,
                )
            &&& forall|p: int|
                0 <= p < swaps ==> #[trigger] all[5 * (n + 1) + n + subs + p] == (
                    seg.update(p, seg[p + 1]).update(p + 1, seg[p]),
                    EditType::Transposition,
                )
            &&& forall|x: int|
                5 * (n + 1) + n <= x < 5 * (n + 1) + n + subs ==> (#[trigger] all[x]).1
                    == EditType::Substitution
            &&& forall|x: int, y: int, p: int, q: int|
                5 * (n + 1) + n <= x < y < 5 * (n + 1) + n + subs && #[trigger] differs_at(
                    seg,
                    all[x].0,
                    p,
                ) && #[trigger] differs_at(seg, all[y].0, q) ==> p <= q
        }),
{
    let n = seg.len() as int;
    let all = fuzzy::edits(seg);
    lemma_insertions_before(seg, seg.len() + 1);
    lemma_substitution_places(seg, seg.len());
    let subs = fuzzy::substitutions(seg);
    let base = 5 * (n + 1) + n;
    assert forall|p: int, i: int| 0 <= p <= n && 0 <= i < 5 implies #[trigger] all[5 * p + i] == (
        seg.insert(p, nth_vowel(i)),
        EditType::Insertion,
    ) by {
        assert(fuzzy::VOWELS@[i] == nth_vowel(i));
        assert(fuzzy::insertions(seg)[5 * p + i] == seg.insert(p, fuzzy::VOWELS@[i]));
    }
    assert forall|x: int| base <= x < base + subs.len() implies all[x] == (
        #[trigger] subs[x - base],
        EditType::Substitution,
    ) by {}
    assert forall|x: int, y: int, p: int, q: int|
        base <= x < y < base + subs.len() && #[trigger] differs_at(seg, all[x].0, p)
            && #[trigger] differs_at(seg, all[y].0, q) implies p <= q by {
        assert(all[x].0 == subs[x - base]);
        assert(all[y].0 == subs[y - base]);
        assert(differs_at(seg, subs[x - base], p));
        assert(differs_at(seg, subs[y - base], q));
    }
}

/// The kana that a spelling converts to; nothing for nothing.
pub open spec fn spelled(spelling: Seq<char>) -> Seq<char> {
    if spelling.len() == 0 {
        Seq::empty()
    } else {
        converter::romaji_to_kana(spelling)
    }
}

/// The spelling puts the text right in this way: it spells kana, or nothing.
pub open spec fn puts_right(
    chars: Seq<char>,
    start: int,
    end: int,
    spelling: Seq<char>,
    reading: Seq<char>,
) -> bool {
    let out = spelled(spelling);
    &&& spelling.len() > 0 ==> out.len() > 0
    &&& forall|i: int| 0 <= i < out.len() ==> !lower(#[trigger] out[i])
    &&& reading == chars.take(start) + out + chars.skip(end)
}

/// The first of the edits that puts the text right in this way.
pub open spec fn first_edit(
    chars: Seq<char>,
    start: int,
    seg: Seq<char>,
    reading: Seq<char>,
    x: int,
) -> bool {
    let end = start + seg.len();
    &&& 0 <= x < fuzzy::edits(seg).len()
    &&& puts_right(chars, start, end, fuzzy::edits(seg)[x].0, reading)
    &&& forall|y: int|
        0 <= y < x ==> !puts_right(chars, start, end, (#[trigger] fuzzy::edits(seg)[y]).0, reading)
}

proof fn lemma_first_repair(
    chars: Seq<char>,
    start: int,
    len: int,
    cands: Seq<(Seq<char>, EditType)>,
    k: Seq<char>,
) -> (x: int)
    requires
        distinct::has_key(fuzzy::repairs_of(chars, start, len, cands), k),
    ensures
        0 <= x < cands.len(),
        puts_right(chars, start, start + len, cands[x].0, k),
        forall|y: int|
            0 <= y < x ==> !puts_right(chars, start, start + len, (#[trigger] cands[y]).0, k),
        ({
            let all = fuzzy::repairs_of(chars, start, len, cands);
            let p = distinct::first_place(all, k);
            &&& p == fuzzy::repairs_of(chars, start, len, cands.take(x)).len()
            &&& p < all.len()
            &&& all[p].edit_type == cands[x].1
        }),
    decreases cands.len(),
{
    let all = fuzzy::repairs_of(chars, start, len, cands);
    let front = cands.drop_last();
    let before = fuzzy::repairs_of(chars, start, len, front);
    distinct::law_first_place(all, k);
    if distinct::has_key(before, k) {
        let x = lemma_first_repair(chars, start, len, front, k);
        distinct::law_first_place(before, k);
        let p = distinct::first_place(before, k);
        assert(all[p] == before[p]);
        assert forall|j: int| 0 <= j < p implies (#[trigger] all[j]).key() != k by {
            assert(all[j] == before[j]);
        }
        distinct::lemma_first_place_is(all, k, p);
        assert(front.take(x) =~= cands.take(x));
        assert forall|y: int| 0 <= y < x implies !puts_right(
            chars,
            start,
            start + len,
            (#[trigger] cands[y]).0,
            k,
        ) by {
            assert(front[y] == cands[y]);
        }
        x
    } else {
        let x = cands.len() - 1;
        let i = choose|i: int| 0 <= i < all.len() && (#[trigger] all[i]).key() == k;
        if i < before.len() {
            assert(before[i].key() == k);
        }
        assert(i == before.len());
        assert forall|j: int| 0 <= j < i implies (#[trigger] all[j]).key() != k by {
            assert(all[j] == before[j]);
            if before[j].key() == k {
                assert(distinct::has_key(before, k));
            }
        }
        distinct::lemma_first_place_is(all, k, i);
        assert(cands.take(x) =~= front);
        lemma_replaced(chars, start, len, cands[x].0, k);
        assert forall|y: int| 0 <= y < x implies !puts_right(
            chars,
            start,
            start + len,
            (#[trigger] cands[y]).0,
            k,
        ) by {
            if puts_right(chars, start, start + len, cands[y].0, k) {
                lemma_replaced(chars, start, len, cands[y].0, k);
                assert(front[y] == cands[y]);
                assert(front.contains(cands[y]));
                fuzzy::lemma_repairs_of_complete(chars, start, len, front, cands[y]);
            }
        }
        x
    }
}

proof fn lemma_replaced(chars: Seq<char>, start: int, len: int, spelling: Seq<char>, k: Seq<char>)
    ensures
        puts_right(chars, start, start + len, spelling, k) <==> fuzzy::replacement(spelling) is Some
            && k == fuzzy::rebuilt(chars, start, len, fuzzy::replacement(spelling)->0),
{
    if spelling.len() > 0 {
        let out = converter::romaji_to_kana(spelling);
        if fuzzy::has_ascii_lower(out) {
            let i = choose|i: int| 0 <= i < out.len() && text::is_ascii_lower(#[trigger] out[i]);
            assert(lower(out[i]));
        } else {
            assert forall|i: int| 0 <= i < out.len() implies !lower(#[trigger] out[i]) by {
                if lower(out[i]) {
                    assert(text::is_ascii_lower(out[i]));
                }
            }
        }
    }
}

proof fn lemma_repairs_grow(
    chars: Seq<char>,
    start: int,
    len: int,
    cands: Seq<(Seq<char>, EditType)>,
    x: int,
    y: int,
)
    requires
        0 <= x <= y <= cands.len(),
    ensures
        fuzzy::repairs_of(chars, start, len, cands.take(x)).len() <= fuzzy::repairs_of(
            chars,
            start,
            len,
            cands.take(y),
        ).len(),
    decreases y - x,
{
    if x < y {
        lemma_repairs_grow(chars, start, len, cands, x, y - 1);
        assert(cands.take(y).drop_last() =~= cands.take(y - 1));
    }
}

proof fn lemma_repaired_order(list: Seq<HypothesisView>, i: int, j: int)
    requires
        0 <= i < j < fuzzy::fully_repaired(list).len(),
    ensures
        exists|a: int, b: int|
            0 <= a < b < list.len() && #[trigger] list[a] == fuzzy::fully_repaired(list)[i]
                && #[trigger] list[b] == fuzzy::fully_repaired(list)[j],
    decreases list.len(),
{
    let all = fuzzy::fully_repaired(list);
    let front = list.drop_last();
    let before = fuzzy::fully_repaired(front);
    if j < before.len() {
        lemma_repaired_order(front, i, j);
        let (a, b) = choose|a: int, b: int|
            0 <= a < b < front.len() && #[trigger] front[a] == before[i] && #[trigger] front[b]
                == before[j];
        assert(list[a] == all[i] && list[b] == all[j]);
    } else {
        fuzzy::lemma_fully_repaired(front);
        assert(front.contains(before[i]));
        let a = choose|a: int| 0 <= a < front.len() && front[a] == before[i];
        assert(list[a] == all[i]);
        assert(list[list.len() - 1] == all[j]);
    }
}

/// Every hypothesis says the type of the first edit that leads to its reading, and the
/// hypotheses stand in the order of these edits.
pub proof fn law_hypotheses_follow_edits(chars: Seq<char>, max: nat, start: int, seg: Seq<char>)
    requires
        fuzzy::stranded(chars) == seq![(start, seg)],
    ensures
        forall|i: int|
            0 <= i < fuzzy::hypotheses(chars, max).len() ==> exists|x: int|
                #![trigger fuzzy::edits(seg)[x]]
                first_edit(chars, start, seg, fuzzy::hypotheses(chars, max)[i].reading, x)
                    && fuzzy::edits(seg)[x].1 == (#[trigger] fuzzy::hypotheses(
                    chars,
                    max,
                )[i]).edit_type,
        forall|i: int, j: int, x: int, y: int|
            0 <= i < j < fuzzy::hypotheses(chars, max).len() && #[trigger] first_edit(
                chars,
                start,
                seg,
                fuzzy::hypotheses(chars, max)[i].reading,
                x,
            ) && #[trigger] first_edit(
                chars,
                start,
                seg,
                fuzzy::hypotheses(chars, max)[j].reading,
                y,
            ) ==> x < y,
{
    let segs = fuzzy::stranded(chars);
    let hyps = fuzzy::hypotheses(chars, max);
    let all = fuzzy::all_repairs(chars, segs);
    let each = distinct::first_of_each(all);
    let cut = distinct::at_most(each, max);
    let none = Seq::<HypothesisView>::empty();
    let len = seg.len() as int;
    let edits = fuzzy::edits(seg);
    assert(segs.drop_last() =~= Seq::empty());
    assert(fuzzy::all_repairs(chars, segs.drop_last()) =~= Seq::empty());
    assert(all =~= fuzzy::segment_repairs(chars, segs[0]));
    distinct::law_extend_order(none, all);
    fuzzy::lemma_fully_repaired(cut);
    if hyps.len() > 0 {
        law_hypotheses_are_explained(chars, max, 0);
        assert(cut.contains(hyps[0]));
        assert(all.len() > 0);
        assert(seg.len() < 3);
        assert(all == fuzzy::repairs_of(chars, start, len, edits));
    }
    assert forall|i: int| 0 <= i < hyps.len() implies exists|x: int|
        #![trigger edits[x]]
        first_edit(chars, start, seg, hyps[i].reading, x) && edits[x].1 == (
        #[trigger] hyps[i]).edit_type by {
        assert(cut.contains(hyps[i]));
        let a = choose|a: int| 0 <= a < cut.len() && cut[a] == hyps[i];
        assert(each[a] == hyps[i]);
        let k = hyps[i].reading;
        assert(each[a].key() == k);
        distinct::law_first_place(all, k);
        let x = lemma_first_repair(chars, start, len, edits, k);
        assert(edits[x].1 == hyps[i].edit_type);
        assert(first_edit(chars, start, seg, k, x));
    }
    assert forall|i: int, j: int, x: int, y: int|
        0 <= i < j < hyps.len() && #[trigger] first_edit(chars, start, seg, hyps[i].reading, x)
            && #[trigger] first_edit(chars, start, seg, hyps[j].reading, y) implies x < y by {
        lemma_repaired_order(cut, i, j);
        let (a, b) = choose|a: int, b: int|
            0 <= a < b < cut.len() && #[trigger] cut[a] == hyps[i] && #[trigger] cut[b] == hyps[j];
        assert(each[a] == hyps[i] && each[b] == hyps[j]);
        let k = hyps[i].reading;
        let m = hyps[j].reading;
        assert(each[a].key() == k && each[b].key() == m);
        distinct::law_first_place(all, k);
        distinct::law_first_place(all, m);
        let u = lemma_first_repair(chars, start, len, edits, k);
        let v = lemma_first_repair(chars, start, len, edits, m);
        assert(u == x) by {
            if u < x {
                assert(!puts_right(chars, start, start + len, edits[u].0, k));
            } else if x < u {
                assert(!puts_right(chars, start, start + len, edits[x].0, k));
            }
        }
        assert(v == y) by {
            if v < y {
                assert(!puts_right(chars, start, start + len, edits[v].0, m));
            } else if y < v {
                assert(!puts_right(chars, start, start + len, edits[y].0, m));
            }
        }
        if y <= x {
            lemma_repairs_grow(chars, start, len, edits, y, x);
        }
    }
}

/// One key of the spelling of a kana reading is replaced by one in reach, which gives
/// another reading without ASCII characters.
pub open spec fn is_kana_slip(reading: Seq<char>, p: int, c: char, other: Seq<char>) -> bool {
    let keys = reverse::spelling_from(reading, 0);
    &&& 0 <= p < keys.len()
    &&& in_reach(keys[p], c)
    &&& other == converter::romaji_to_kana(keys.update(p, c))
    &&& other.len() > 0
    &&& other != reading
    &&& forall|i: int| 0 <= i < other.len() ==> '\u{80}' <= (#[trigger] other[i])
}

proof fn lemma_kana_repair(reading: Seq<char>, spellings: Seq<Seq<char>>, s: Seq<char>)
    requires
        spellings.contains(s),
        converter::romaji_to_kana(s).len() > 0,
        converter::romaji_to_kana(s) != reading,
        forall|i: int|
            0 <= i < converter::romaji_to_kana(s).len() ==> '\u{80}' <= (
            #[trigger] converter::romaji_to_kana(s)[i]),
    ensures
        distinct::has_key(
            reverse::kana_repairs(reading, spellings),
            converter::romaji_to_kana(s),
        ),
    decreases spellings.len(),
{
    let front = spellings.drop_last();
    let before = reverse::kana_repairs(reading, front);
    let all = reverse::kana_repairs(reading, spellings);
    let out = converter::romaji_to_kana(s);
    if spellings.last() == s {
        lemma_no_ascii(out);
        assert(!fuzzy::has_ascii_lower(out)) by {
            if fuzzy::has_ascii_lower(out) {
                let i = choose|i: int| 0 <= i < out.len() && text::is_ascii_lower(#[trigger] out[i]);
                assert('\u{80}' <= out[i]);
            }
        }
        assert(all[before.len() as int].key() == out);
    } else {
        let j = choose|j: int| 0 <= j < spellings.len() && spellings[j] == s;
        assert(front[j] == s);
        lemma_kana_repair(reading, front, s);
        let i = choose|i: int| 0 <= i < before.len() && (#[trigger] before[i]).key() == out;
        assert(all[i].key() == out);
    }
}

proof fn lemma_kana_repairs_from(reading: Seq<char>, spellings: Seq<Seq<char>>)
    ensures
        reverse::kana_repairs(reading, spellings).len() <= spellings.len(),
        forall|i: int|
            0 <= i < reverse::kana_repairs(reading, spellings).len() ==> {
                let h = #[trigger] reverse::kana_repairs(reading, spellings)[i];
                &&& h.edit_type == EditType::Substitution
                &&& h.reading != reading
                &&& h.reading.len() > 0
                &&& exists|j: int|
                    0 <= j < spellings.len() && h.reading == converter::romaji_to_kana(
                        #[trigger] spellings[j],
                    )
            },
    decreases spellings.len(),
{
    if spellings.len() > 0 {
        let front = spellings.drop_last();
        lemma_kana_repairs_from(reading, front);
        let before = reverse::kana_repairs(reading, front);
        let all = reverse::kana_repairs(reading, spellings);
        assert forall|i: int| 0 <= i < all.len() implies {
            let h = #[trigger] all[i];
            &&& h.edit_type == EditType::Substitution
            &&& h.reading != reading
            &&& h.reading.len() > 0
            &&& exists|j: int|
                0 <= j < spellings.len() && h.reading == converter::romaji_to_kana(
                    #[trigger] spellings[j],
                )
        } by {
            if i < before.len() {
                assert(all[i] == before[i]);
                let j = choose|j: int|
                    0 <= j < front.len() && before[i].reading == converter::romaji_to_kana(
                        #[trigger] front[j],
                    );
                assert(spellings[j] == front[j]);
            } else {
                assert(spellings[spellings.len() - 1] == spellings.last());
            }
        }
    }
}

/// A slip to a key in reach, anywhere in the spelling of a kana reading, is repaired: the
/// reading with the right key is among the hypotheses where the cap leaves room.
pub proof fn law_kana_slip_is_repaired(
    reading: Seq<char>,
    max: nat,
    p: int,
    c: char,
    other: Seq<char>,
)
    requires
        is_kana_slip(reading, p, c, other),
        6 * reverse::spelling_from(reading, 0).len() <= max,
    ensures
        distinct::has_key(reverse::kana_hypotheses(reading, max), other),
{
    let keys = reverse::spelling_from(reading, 0);
    let subs = fuzzy::substitutions(keys);
    let none = Seq::<HypothesisView>::empty();
    lemma_substitutions_before(keys, keys.len());
    assert(subs.contains(keys.update(p, c)));
    lemma_kana_repair(reading, subs, keys.update(p, c));
    lemma_kana_repairs_from(reading, subs);
    let all = reverse::kana_repairs(reading, subs);
    distinct::law_extend_keys(none, all, other);
    distinct::law_extend_keeps_list(none, all);
}

/// Every hypothesis for a kana reading comes from a slip to a key in reach, and no reading
/// comes twice.
pub proof fn law_kana_hypotheses_are_explained(reading: Seq<char>, max: nat, i: int)
    requires
        0 <= i < reverse::kana_hypotheses(reading, max).len(),
    ensures
        reverse::kana_hypotheses(reading, max)[i].edit_type == EditType::Substitution,
        exists|p: int, c: char|
            is_kana_slip(reading, p, c, reverse::kana_hypotheses(reading, max)[i].reading),
        forall|j: int|
            0 <= j < reverse::kana_hypotheses(reading, max).len() && j != i ==> (
            #[trigger] reverse::kana_hypotheses(reading, max)[j]).reading
                != reverse::kana_hypotheses(reading, max)[i].reading,
        reverse::kana_hypotheses(reading, max).len() <= max,
{
    let keys = reverse::spelling_from(reading, 0);
    let subs = fuzzy::substitutions(keys);
    let none = Seq::<HypothesisView>::empty();
    let all = reverse::kana_repairs(reading, subs);
    let each = distinct::first_of_each(all);
    let hyps = reverse::kana_hypotheses(reading, max);
    let h = hyps[i];
    assert(each[i] == h);
    reverse::law_kana_hypotheses(reading, max);
    lemma_kana_repairs_from(reading, subs);
    lemma_substitutions_before(keys, keys.len());
    distinct::law_extend_adds_items(none, all, i);
    let a = choose|a: int| 0 <= a < all.len() && all[a] == h;
    let j = choose|j: int|
        0 <= j < subs.len() && all[a].reading == converter::romaji_to_kana(#[trigger] subs[j]);
    assert(is_substitution(keys, subs[j]));
    let (p, c) = choose|p: int, c: char|
        #![trigger keys.update(p, c)]
        0 <= p < keys.len() && in_reach(keys[p], c) && subs[j] == keys.update(p, c);
    assert forall|k: int| 0 <= k < h.reading.len() implies '\u{80}' <= (#[trigger] h.reading[k]) by {
        if !('\u{80}' <= h.reading[k]) {
            assert(text::is_ascii(h.reading[k]));
            assert(text::has_ascii(hyps[i].reading));
        }
    }
    assert(is_kana_slip(reading, p, c, h.reading));
    assert forall|j: int| 0 <= j < hyps.len() && j != i implies (#[trigger] hyps[j]).reading
        != h.reading by {
        assert(hyps[j].key() == hyps[j].reading);
        assert(hyps[i].key() == hyps[i].reading);
    }
}

proof fn lemma_kana_repairs_order(
    reading: Seq<char>,
    spellings: Seq<Seq<char>>,
    a: int,
    b: int,
)
    requires
        0 <= a < b < reverse::kana_repairs(reading, spellings).len(),
    ensures
        exists|x: int, y: int|
            0 <= x < y < spellings.len() && reverse::kana_repairs(reading, spellings)[a].reading
                == converter::romaji_to_kana(#[trigger] spellings[x]) && reverse::kana_repairs(
                reading,
                spellings,
            )[b].reading == converter::romaji_to_kana(#[trigger] spellings[y]),
    decreases spellings.len(),
{
    let front = spellings.drop_last();
    let before = reverse::kana_repairs(reading, front);
    let all = reverse::kana_repairs(reading, spellings);
    if b < before.len() {
        lemma_kana_repairs_order(reading, front, a, b);
        let (x, y) = choose|x: int, y: int|
            0 <= x < y < front.len() && before[a].reading == converter::romaji_to_kana(
                #[trigger] front[x],
            ) && before[b].reading == converter::romaji_to_kana(#[trigger] front[y]);
        assert(spellings[x] == front[x] && spellings[y] == front[y]);
    } else {
        lemma_kana_repairs_from(reading, front);
        assert(all[a] == before[a]);
        let x = choose|x: int|
            0 <= x < front.len() && before[a].reading == converter::romaji_to_kana(
                #[trigger] front[x],
            );
        assert(spellings[x] == front[x]);
        let y = spellings.len() - 1;
        assert(all[b].reading == converter::romaji_to_kana(spellings[y]));
    }
}

/// The hypotheses for a kana reading stand in the order of the keys that may have been
/// slips, from the front on.
pub proof fn law_kana_hypotheses_in_order(reading: Seq<char>, max: nat, i: int, j: int)
    requires
        0 <= i < j < reverse::kana_hypotheses(reading, max).len(),
    ensures
        exists|p: int, c: char, q: int, d: char|
            p <= q && #[trigger] is_kana_slip(
                reading,
                p,
                c,
                reverse::kana_hypotheses(reading, max)[i].reading,
            ) && #[trigger] is_kana_slip(
                reading,
                q,
                d,
                reverse::kana_hypotheses(reading, max)[j].reading,
            ),
{
    let keys = reverse::spelling_from(reading, 0);
    let subs = fuzzy::substitutions(keys);
    let none = Seq::<HypothesisView>::empty();
    let all = reverse::kana_repairs(reading, subs);
    let each = distinct::first_of_each(all);
    let hyps = reverse::kana_hypotheses(reading, max);
    assert(each[i] == hyps[i] && each[j] == hyps[j]);
    distinct::law_extend_order(none, all);
    let a = distinct::first_place(all, each[i].key());
    let b = distinct::first_place(all, each[j].key());
    assert(a < b && all[a] == hyps[i] && all[b] == hyps[j]);
    lemma_kana_repairs_order(reading, subs, a, b);
    let (x, y) = choose|x: int, y: int|
        0 <= x < y < subs.len() && all[a].reading == converter::romaji_to_kana(#[trigger] subs[x])
            && all[b].reading == converter::romaji_to_kana(#[trigger] subs[y]);
    lemma_substitutions_before(keys, keys.len());
    lemma_substitution_places(keys, keys.len());
    assert(is_substitution(keys, subs[x]) && is_substitution(keys, subs[y]));
    let (p, c) = choose|p: int, c: char|
        #![trigger keys.update(p, c)]
        0 <= p < keys.len() && in_reach(keys[p], c) && subs[x] == keys.update(p, c);
    let (q, d) = choose|q: int, d: char|
        #![trigger keys.update(q, d)]
        0 <= q < keys.len() && in_reach(keys[q], d) && subs[y] == keys.update(q, d);
    assert(differs_at(keys, subs[x], p));
    assert(differs_at(keys, subs[y], q));
    law_kana_hypotheses_are_explained(reading, max, i);
    law_kana_hypotheses_are_explained(reading, max, j);
    assert(is_kana_slip(reading, p, c, hyps[i].reading));
    assert(is_kana_slip(reading, q, d, hyps[j].reading));
}

} // verus!
