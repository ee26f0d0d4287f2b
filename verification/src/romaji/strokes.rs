//! Which keys stand for a kana text, said kana by kana.
use super::converter;
use super::converter::RomajiView;
use super::reverse;
use super::rules;
use vstd::prelude::*;

verus! {

/// A letter that the spellings use: of the letters that could stand for the same kana,
/// `c`, `f`, `j`, `l` and `q` are never taken.
pub open spec fn plain_letter(c: char) -> bool {
    'a' <= c && c <= 'z' && c != 'c' && c != 'f' && c != 'j' && c != 'l' && c != 'q'
}

/// A hiragana that has a spelling.
pub open spec fn has_spelling(c: char) -> bool {
    'ぁ' <= c && c <= 'ゔ' && c != 'ゎ' && c != 'ゐ' && c != 'ゑ'
}

/// A small `ゃ`, `ゅ` or `ょ`.
pub open spec fn small_y(c: char) -> bool {
    c == 'ゃ' || c == 'ゅ' || c == 'ょ'
}

/// The keys for one kana on its own.
pub open spec fn keys_for(c: char) -> Seq<char> {
    reverse::spelling_from(seq![c], 0)
}

/// How many keys one kana takes: a vowel and `ん` one, the small `っ`, `ゃ`, `ゅ` and `ょ`
/// three, and every other two.
pub open spec fn number_of_keys(c: char) -> int {
    if c == 'あ' || c == 'い' || c == 'う' || c == 'え' || c == 'お' || c == 'ん' {
        1
    } else if c == 'っ' || small_y(c) {
        3
    } else {
        2
    }
}

proof fn lemma_keys_for(c: char)
    ensures
        keys_for(c) == reverse::spelling_at(seq![c], 0).0,
        reverse::spelling_at(seq![c], 0).1 == 1,
{
    let s = seq![c];
    reveal_with_fuel(reverse::spelling_from, 2);
    assert(reverse::spelling_at(s, 0).0 + Seq::<char>::empty() =~= reverse::spelling_at(s, 0).0);
}

/// A hiragana is spelled with as few letters as it takes, which type it again; what has
/// no spelling stands for itself.
pub proof fn law_keys_for_kana(c: char)
    requires
        '\u{80}' <= c,
    ensures
        converter::romaji_to_kana(keys_for(c)) == seq![c],
        has_spelling(c) ==> keys_for(c).len() == number_of_keys(c) && forall|i: int|
            0 <= i < keys_for(c).len() ==> plain_letter(#[trigger] keys_for(c)[i]),
        !has_spelling(c) ==> keys_for(c) == seq![c],
{
    lemma_keys_for(c);
    let s = seq![c];
    assert forall|i: int| 0 <= i < s.len() implies '\u{80}' <= #[trigger] s[i] by {}
    reverse::law_spelling_types_the_text(s);
}

proof fn lemma_from_two(c: char, d: char, rest: Seq<char>)
    ensures
        ({
            let s = seq![c, d] + rest;
            let next = seq![d] + rest;
            reverse::spelling_from(s, 0) == reverse::spelling_at(s, 0).0 + if reverse::spelling_at(
                s,
                0,
            ).1 == 1 {
                reverse::spelling_from(next, 0)
            } else {
                reverse::spelling_from(rest, 0)
            }
        }),
{
    let s = seq![c, d] + rest;
    let next = seq![d] + rest;
    lemma_suffix(seq![c], next, 0);
    assert(seq![c] + next =~= s);
    lemma_suffix(seq![c, d], rest, 0);
}

/// What stands before does not matter.
proof fn lemma_suffix(a: Seq<char>, b: Seq<char>, k: int)
    requires
        0 <= k,
    ensures
        reverse::spelling_from(a + b, a.len() + k) == reverse::spelling_from(b, k),
    decreases b.len() - k,
{
    if k < b.len() {
        let n = reverse::spelling_at(b, k).1;
        assert((a + b)[a.len() + k] == b[k]);
        if k + 1 < b.len() {
            assert((a + b)[a.len() + k + 1] == b[k + 1]);
        }
        assert(reverse::spelling_at(a + b, a.len() + k) == reverse::spelling_at(b, k));
        lemma_suffix(a, b, k + n);
    }
}

/// A kana of the `i` column and a small `ゃ`, `ゅ` or `ょ` behind it are spelled together:
/// the consonant, `y`, and the vowel.
pub proof fn law_keys_for_glide(c: char, y: char, rest: Seq<char>)
    requires
        has_spelling(c),
        keys_for(c).len() == 2,
        keys_for(c)[1] == 'i',
        keys_for(c)[0] != 'x',
        small_y(y),
    ensures
        reverse::spelling_from(seq![c, y] + rest, 0) == seq![
            keys_for(c)[0],
            'y',
            if y == 'ゃ' {
                'a'
            } else if y == 'ゅ' {
                'u'
            } else {
                'o'
            },
        ] + reverse::spelling_from(rest, 0),
{
    lemma_keys_for(c);
    lemma_from_two(c, y, rest);
}

/// An `ん` takes a second `n` before a vowel, before a kana of the `n` and `y` rows and
/// before another `ん`, and one `n` otherwise.
pub proof fn law_keys_for_n(d: char, rest: Seq<char>)
    requires
        '\u{80}' <= d,
    ensures
        ({
            let k = keys_for(d)[0];
            let doubled = k == 'a' || k == 'i' || k == 'u' || k == 'e' || k == 'o' || k == 'n' || k
                == 'y';
            reverse::spelling_from(seq!['ん', d] + rest, 0) == (if doubled {
                seq!['n', 'n']
            } else {
                seq!['n']
            }) + reverse::spelling_from(seq![d] + rest, 0)
        }),
{
    lemma_keys_for(d);
    lemma_from_two('ん', d, rest);
}

/// A `っ` doubles the consonant behind it; where there is none, and before the `n` row, it
/// is spelled out.
pub proof fn law_keys_for_tsu(d: char, rest: Seq<char>)
    requires
        '\u{80}' <= d,
    ensures
        ({
            let k = keys_for(d);
            reverse::spelling_from(seq!['っ', d] + rest, 0) == (if k.len() == 2 && k[0] != 'n' {
                seq![k[0]]
            } else {
                seq!['x', 't', 'u']
            }) + reverse::spelling_from(seq![d] + rest, 0)
        }),
{
    lemma_keys_for(d);
    lemma_from_two('っ', d, rest);
}

/// Everything else is spelled kana by kana: a text that ends in neither `ん` nor `っ`, and
/// one behind it that does not start with a small `ゃ`, `ゅ` or `ょ`, are spelled one after
/// the other.
pub proof fn law_keys_one_after_the_other(a: Seq<char>, b: Seq<char>)
    requires
        a.len() > 0 ==> a.last() != 'ん' && a.last() != 'っ',
        b.len() > 0 ==> !small_y(b[0]),
    ensures
        reverse::spelling_from(a + b, 0) == reverse::spelling_from(a, 0) + reverse::spelling_from(
            b,
            0,
        ),
{
    lemma_prefix(a, b, 0);
}

proof fn lemma_prefix(a: Seq<char>, b: Seq<char>, k: int)
    requires
        a.len() > 0 ==> a.last() != 'ん' && a.last() != 'っ',
        b.len() > 0 ==> !small_y(b[0]),
        0 <= k <= a.len(),
    ensures
        reverse::spelling_from(a + b, k) == reverse::spelling_from(a, k) + reverse::spelling_from(
            b,
            0,
        ),
    decreases a.len() - k,
{
    if k == a.len() {
        lemma_suffix(a, b, 0);
        assert(Seq::<char>::empty() + reverse::spelling_from(b, 0) =~= reverse::spelling_from(b, 0));
    } else {
        let s = a + b;
        assert(s[k] == a[k]);
        if k + 1 < a.len() {
            assert(s[k + 1] == a[k + 1]);
        } else if b.len() > 0 {
            assert(s[k + 1] == b[0]);
        }
        assert(reverse::spelling_at(s, k) == reverse::spelling_at(a, k));
        let (keys, n) = reverse::spelling_at(a, k);
        lemma_prefix(a, b, k + n);
        assert(reverse::spelling_from(s, k) =~= reverse::spelling_from(a, k)
            + reverse::spelling_from(b, 0));
    }
}

/// Typing the letters of a syllable gives its kana, and nothing stays pending.
pub proof fn law_syllable_is_typed(output: Seq<char>, spelling: Seq<char>)
    requires
        rules::syllable(spelling) is Some,
    ensures
        (RomajiView { output, pending: Seq::empty() }).pushed_all(spelling) == (RomajiView {
            output: output + rules::syllable(spelling)->0,
            pending: Seq::empty(),
        }),
{
    let start = RomajiView { output, pending: Seq::empty() };
    let onset = spelling.drop_last();
    lemma_onset_waits(start, onset);
    assert(start.pushed_all(onset) == (RomajiView { output, pending: onset }));
    assert(onset.push(spelling.last()) =~= spelling);
}

proof fn lemma_onset_waits(start: RomajiView, onset: Seq<char>)
    requires
        start.pending.len() == 0,
        rules::row_of(onset) is Some,
    ensures
        start.pushed_all(onset) == (RomajiView { output: start.output, pending: onset }),
    decreases onset.len(),
{
    if onset.len() == 0 {
        assert(start.pending =~= onset);
    } else {
        let front = onset.drop_last();
        lemma_onset_waits(start, front);
        assert(front.push(onset.last()) =~= onset);
        let next = RomajiView { output: start.output, pending: onset };
        assert(rules::syllable(onset) is None) by {
            assert(rules::row_of(front) is Some);
        }
        assert(!(onset.len() == 2 && onset[0] == 'n' && (onset[1] == 'n' || onset[1] == '\'')));
        assert(next.settled() == next);
    }
}

/// The place of a vowel in a row of kana.
pub open spec fn column(v: char) -> int {
    if v == 'a' {
        0
    } else if v == 'i' {
        1
    } else if v == 'u' {
        2
    } else if v == 'e' {
        3
    } else {
        4
    }
}

/// The kana of a consonant and a vowel.
pub open spec fn kana_of(c: char, v: char) -> int {
    rules::syllable(seq![c, v])->0[0] as int
}

/// The rows of the table stand where the code points of hiragana have them: those of `k`,
/// `s`, `n`, `h`, `m` and `r` in order, and the voiced rows right behind their unvoiced
/// ones.
pub proof fn law_rows(v: char)
    requires
        v == 'a' || v == 'i' || v == 'u' || v == 'e' || v == 'o',
    ensures
        kana_of('k', v) == 'か' as int + 2 * column(v),
        kana_of('s', v) == 'さ' as int + 2 * column(v),
        kana_of('n', v) == 'な' as int + column(v),
        kana_of('h', v) == 'は' as int + 3 * column(v),
        kana_of('m', v) == 'ま' as int + column(v),
        kana_of('r', v) == 'ら' as int + column(v),
        kana_of('t', v) == 'た' as int + 2 * column(v) + if column(v) >= 2 {
            1int
        } else {
            0
        },
        kana_of('g', v) == kana_of('k', v) + 1,
        kana_of('z', v) == kana_of('s', v) + 1,
        kana_of('d', v) == kana_of('t', v) + 1,
        kana_of('b', v) == kana_of('h', v) + 1,
        kana_of('p', v) == kana_of('h', v) + 2,
{
    assert(seq!['k', v].drop_last() =~= seq!['k']);
    assert(seq!['s', v].drop_last() =~= seq!['s']);
    assert(seq!['n', v].drop_last() =~= seq!['n']);
    assert(seq!['h', v].drop_last() =~= seq!['h']);
    assert(seq!['m', v].drop_last() =~= seq!['m']);
    assert(seq!['r', v].drop_last() =~= seq!['r']);
    assert(seq!['t', v].drop_last() =~= seq!['t']);
    assert(seq!['g', v].drop_last() =~= seq!['g']);
    assert(seq!['z', v].drop_last() =~= seq!['z']);
    assert(seq!['d', v].drop_last() =~= seq!['d']);
    assert(seq!['b', v].drop_last() =~= seq!['b']);
    assert(seq!['p', v].drop_last() =~= seq!['p']);
}

/// A consonant that a vowel can complete.
pub open spec fn consonant(c: char) -> bool {
    'a' <= c && c <= 'z' && c != 'a' && c != 'i' && c != 'u' && c != 'e' && c != 'o'
}

/// A doubled consonant gives a small `っ`, and so does `t` before `c`; an `n` before another
/// consonant but `y` gives `ん`, and so do two of them. The second letter stays pending,
/// but for a second `n`.
pub proof fn law_two_consonants(output: Seq<char>, c: char, d: char)
    requires
        consonant(c),
        consonant(d),
    ensures
        ({
            let after = (RomajiView { output, pending: Seq::empty() }).pushed(c).pushed(d);
            &&& c == d && c != 'n' || (c == 't' && d == 'c') ==> after == (RomajiView {
                output: output.push('っ'),
                pending: seq![d],
            })
            &&& c == 'n' && d == 'n' ==> after == (RomajiView {
                output: output.push('ん'),
                pending: Seq::empty(),
            })
            &&& c == 'n' && d != 'n' && d != 'y' ==> after == (RomajiView {
                output: output.push('ん'),
                pending: seq![d],
            })
        }),
{
    let start = RomajiView { output, pending: Seq::empty() };
    let one = RomajiView { output, pending: seq![c] };
    assert(Seq::<char>::empty().push(c) =~= seq![c]);
    assert(seq![c].drop_last() =~= Seq::<char>::empty());
    assert(rules::row_of_letter(c) is Some);
    assert(rules::row_of_letter(d) is Some);
    assert(start.pushed(c) == one);
    let two = seq![c].push(d);
    assert(two =~= seq![c, d]);
    assert(two.drop_last() =~= seq![c]);
    assert(two.drop_first() =~= seq![d]);
    assert(rules::syllable(two) is None);
    assert(seq![d].drop_last() =~= Seq::<char>::empty());
    let rest = RomajiView { output: output.push(converter::leading_kana(two)), pending: seq![d] };
    assert(rules::syllable(seq![d]) is None);
    assert(rest.settled() == rest);
    reveal_with_fuel(RomajiView::settled, 2);
}

/// Punctuation becomes Japanese as it is typed, where nothing is pending, and a digit stays
/// as it is.
pub proof fn law_punctuation(output: Seq<char>, c: char)
    requires
        c == '-' || c == ',' || c == '.' || c == '[' || c == ']' || ('0' <= c && c <= '9'),
    ensures
        (RomajiView { output, pending: Seq::empty() }).pushed(c) == (RomajiView {
            output: output.push(
                if c == '-' {
                    'ー'
                } else if c == ',' {
                    '、'
                } else if c == '.' {
                    '。'
                } else if c == '[' {
                    '「'
                } else if c == ']' {
                    '」'
                } else {
                    c
                },
            ),
            pending: Seq::empty(),
        }),
{
    let one = seq![c];
    assert(Seq::<char>::empty().push(c) =~= one);
    assert(one.drop_last() =~= Seq::<char>::empty());
    assert(one.drop_first() =~= Seq::<char>::empty());
    assert(rules::syllable(one) is None);
    reveal_with_fuel(RomajiView::settled, 2);
}

} // verus!
