//! Repair of typing slips: letters that did not become kana are edited by one key
//! and converted again.
use super::converter;
use super::converter::RomajiConverter;
use crate::distinct;
use crate::distinct::Keyed;
use crate::text;
use crate::text::{ascii_lower, chars_of, contains_ascii, is_kana, text_of};
use vstd::prelude::*;

verus! {

/// The type of edit that produced a hypothesis.
#[derive(Debug, Clone, Copy, PartialEq, Eq, Structural)]
pub enum EditType {
    /// A vowel was inserted into the stranded letters.
    Insertion,
    /// A stranded letter was deleted.
    Deletion,
    /// A stranded letter was replaced with a neighbor on the keyboard.
    Substitution,
    /// Two adjacent letters were swapped.
    Transposition,
}

/// A repair hypothesis: a corrected reading and the edit that led to it.
#[derive(Debug)]
pub struct FuzzyHypothesis {
    /// The corrected text of the whole buffer: kana in place of the letters, and no
    /// ASCII character anywhere.
    pub reading: String,
    /// What edit was applied.
    pub edit_type: EditType,
}

#[verifier::ext_equal]
pub struct HypothesisView {
    pub reading: Seq<char>,
    pub edit_type: EditType,
}

impl Keyed for HypothesisView {
    open spec fn key(self) -> Seq<char> {
        self.reading
    }
}

impl View for FuzzyHypothesis {
    type V = HypothesisView;

    open spec fn view(&self) -> HypothesisView {
        HypothesisView { reading: self.reading@, edit_type: self.edit_type }
    }
}

impl Clone for FuzzyHypothesis {
    fn clone(&self) -> (r: Self)
        ensures
            r == *self,
    {
        FuzzyHypothesis { reading: self.reading.clone(), edit_type: self.edit_type }
    }
}

pub open spec fn hypothesis_views(v: Seq<FuzzyHypothesis>) -> Seq<HypothesisView> {
    v.map_values(|h: FuzzyHypothesis| h@)
}

/// The keys around `c` on a QWERTY keyboard.
pub open spec fn neighbors_of(c: char) -> Seq<char> {
    match c {
        'q' => seq!['w', 'a', 's'],
        'w' => seq!['q', 'e', 'a', 's', 'd'],
        'e' => seq!['w', 'r', 's', 'd', 'f'],
        'r' => seq!['e', 't', 'd', 'f', 'g'],
        't' => seq!['r', 'y', 'f', 'g', 'h'],
        'y' => seq!['t', 'u', 'g', 'h', 'j'],
        'u' => seq!['y', 'i', 'h', 'j', 'k'],
        'i' => seq!['u', 'o', 'j', 'k', 'l'],
        'o' => seq!['i', 'p', 'k', 'l'],
        'p' => seq!['o', 'l'],
        'a' => seq!['q', 'w', 's', 'z', 'x'],
        's' => seq!['a', 'w', 'e', 'd', 'z', 'x'],
        'd' => seq!['s', 'e', 'r', 'f', 'x', 'c'],
        'f' => seq!['d', 'r', 't', 'g', 'c', 'v'],
        'g' => seq!['f', 't', 'y', 'h', 'v', 'b'],
        'h' => seq!['g', 'y', 'u', 'j', 'b', 'n'],
        'j' => seq!['h', 'u', 'i', 'k', 'n', 'm'],
        'k' => seq!['j', 'i', 'o', 'l', 'm'],
        'l' => seq!['k', 'o', 'p'],
        'z' => seq!['a', 's', 'x'],
        'x' => seq!['z', 's', 'd', 'c'],
        'c' => seq!['x', 'd', 'f', 'v'],
        'v' => seq!['c', 'f', 'g', 'b'],
        'b' => seq!['v', 'g', 'h', 'n'],
        'n' => seq!['b', 'h', 'j', 'm'],
        'm' => seq!['n', 'j', 'k'],
        _ => seq![],
    }
}

/// The keys around `c` on a QWERTY keyboard, none for what is not a letter `a`-`z`.
pub fn qwerty_neighbors(c: char) -> (r: &'static [char])
    ensures
        r@ == neighbors_of(c),
{
    match c {
        'q' => &['w', 'a', 's'],
        'w' => &['q', 'e', 'a', 's', 'd'],
        'e' => &['w', 'r', 's', 'd', 'f'],
        'r' => &['e', 't', 'd', 'f', 'g'],
        't' => &['r', 'y', 'f', 'g', 'h'],
        'y' => &['t', 'u', 'g', 'h', 'j'],
        'u' => &['y', 'i', 'h', 'j', 'k'],
        'i' => &['u', 'o', 'j', 'k', 'l'],
        'o' => &['i', 'p', 'k', 'l'],
        'p' => &['o', 'l'],
        'a' => &['q', 'w', 's', 'z', 'x'],
        's' => &['a', 'w', 'e', 'd', 'z', 'x'],
        'd' => &['s', 'e', 'r', 'f', 'x', 'c'],
        'f' => &['d', 'r', 't', 'g', 'c', 'v'],
        'g' => &['f', 't', 'y', 'h', 'v', 'b'],
        'h' => &['g', 'y', 'u', 'j', 'b', 'n'],
        'j' => &['h', 'u', 'i', 'k', 'n', 'm'],
        'k' => &['j', 'i', 'o', 'l', 'm'],
        'l' => &['k', 'o', 'p'],
        'z' => &['a', 's', 'x'],
        'x' => &['z', 's', 'd', 'c'],
        'c' => &['x', 'd', 'f', 'v'],
        'v' => &['c', 'f', 'g', 'b'],
        'b' => &['v', 'g', 'h', 'n'],
        'n' => &['b', 'h', 'j', 'm'],
        'm' => &['n', 'j', 'k'],
        _ => &[],
    }
}

/// The end of the run of letters `a`-`z` that starts at `i`.
pub open spec fn run_end(chars: Seq<char>, i: int) -> int
    decreases chars.len() - i,
{
    if 0 <= i < chars.len() && text::is_ascii_lower(chars[i]) {
        run_end(chars, i + 1)
    } else {
        i
    }
}

/// The letters from `start` to `end` touch kana on at least one side.
pub open spec fn touches_kana(chars: Seq<char>, start: int, end: int) -> bool {
    ||| start > 0 && is_kana(chars[start - 1])
    ||| end < chars.len() && is_kana(chars[end])
}

/// The runs of letters `a`-`z` from `i` on that touch kana: where each starts, and its
/// letters.
pub open spec fn stranded_from(chars: Seq<char>, i: int) -> Seq<(int, Seq<char>)>
    decreases chars.len() - i,
{
    if i < 0 || i >= chars.len() {
        Seq::empty()
    } else if text::is_ascii_lower(chars[i]) {
        proof {
            lemma_run_end(chars, i + 1);
        }
        let end = run_end(chars, i);
        let rest = stranded_from(chars, end);
        if touches_kana(chars, i, end) {
            seq![(i, chars.subrange(i, end))] + rest
        } else {
            rest
        }
    } else {
        stranded_from(chars, i + 1)
    }
}

/// The stranded segments of a text.
pub open spec fn stranded(chars: Seq<char>) -> Seq<(int, Seq<char>)> {
    stranded_from(chars, 0)
}

pub open spec fn segment_views(v: Seq<(usize, String)>) -> Seq<(int, Seq<char>)> {
    v.map_values(|p: (usize, String)| (p.0 as int, p.1@))
}

/// A run of letters ends where it ends, seen from any letter in it.
pub proof fn lemma_run_end(chars: Seq<char>, i: int)
    requires
        0 <= i <= chars.len(),
    ensures
        i <= run_end(chars, i) <= chars.len(),
        forall|j: int| i <= j < run_end(chars, i) ==> text::is_ascii_lower(#[trigger] chars[j]),
        run_end(chars, i) < chars.len() ==> !text::is_ascii_lower(chars[run_end(chars, i)]),
    decreases chars.len() - i,
{
    if i < chars.len() && text::is_ascii_lower(chars[i]) {
        lemma_run_end(chars, i + 1);
    }
}

/// Finds the stranded segments of the buffer: the runs of lower case letters `a`-`z`
/// that touch kana on at least one side. Each comes with the index of its first
/// character. Upper case letters are no part of a segment.
pub fn find_stranded_ascii(buffer: &str) -> (r: Vec<(usize, String)>)
    ensures
        segment_views(r@) == stranded(buffer@),
{
    let chars = chars_of(buffer);
    let mut result: Vec<(usize, String)> = Vec::new();
    let mut i: usize = 0;
    while i < chars.len()
        invariant
            i <= chars.len(),
            chars@ == buffer@,
            segment_views(result@) + stranded_from(chars@, i as int) == stranded(chars@),
        decreases chars.len() - i,
    {
        if ascii_lower(chars[i]) {
            let start = i;
            let mut seg = String::new();
            while i < chars.len() && ascii_lower(chars[i])
                invariant
                    start <= i <= chars.len(),
                    run_end(chars@, i as int) == run_end(chars@, start as int),
                    seg@ == chars@.subrange(start as int, i as int),
                decreases chars.len() - i,
            {
                let ghost before = seg@;
                seg.push(chars[i]);
                i += 1;
                assert(seg@ =~= chars@.subrange(start as int, i as int));
            }
            assert(i == run_end(chars@, start as int));
            assert(i > start) by {
                lemma_run_end(chars@, start + 1);
            }
            let before_is_kana = start > 0 && is_kana(chars[start - 1]);
            let after_is_kana = i < chars.len() && is_kana(chars[i]);
            let ghost found = segment_views(result@);
            if before_is_kana || after_is_kana {
                result.push((start, seg));
                assert(segment_views(result@) =~= found.push((start as int, seg@)));
                assert(found.push((start as int, seg@)) + stranded_from(chars@, i as int) =~= found
                    + (seq![(start as int, seg@)] + stranded_from(chars@, i as int)));
            }
        } else {
            i += 1;
        }
    }
    assert(segment_views(result@) + Seq::<(int, Seq<char>)>::empty() =~= segment_views(result@));
    result
}

/// `chars` has a maximal run of letters `a`-`z` from `start` to `end`.
pub open spec fn is_run(chars: Seq<char>, start: int, end: int) -> bool {
    &&& 0 <= start < end <= chars.len()
    &&& forall|j: int| start <= j < end ==> text::is_ascii_lower(#[trigger] chars[j])
    &&& start > 0 ==> !text::is_ascii_lower(chars[start - 1])
    &&& end < chars.len() ==> !text::is_ascii_lower(chars[end])
}

/// What is reported from `i` on, if `i` is not inside a run.
proof fn lemma_stranded_from(chars: Seq<char>, i: int)
    requires
        0 <= i <= chars.len(),
        i > 0 && i < chars.len() && text::is_ascii_lower(chars[i]) ==> !text::is_ascii_lower(
            chars[i - 1],
        ),
    ensures
        forall|k: int|
            0 <= k < stranded_from(chars, i).len() ==> {
                let (start, seg) = #[trigger] stranded_from(chars, i)[k];
                let end = start + seg.len();
                &&& i <= start
                &&& is_run(chars, start, end)
                &&& touches_kana(chars, start, end)
                &&& seg == chars.subrange(start, end)
            },
        forall|k: int, l: int|
            0 <= k < l < stranded_from(chars, i).len() ==> (#[trigger] stranded_from(chars, i)[k]).0
                < (#[trigger] stranded_from(chars, i)[l]).0,
        forall|start: int, end: int|
            i <= start && #[trigger] is_run(chars, start, end) && touches_kana(chars, start, end)
                ==> stranded_from(chars, i).contains((start, chars.subrange(start, end))),
    decreases chars.len() - i,
{
    if i < chars.len() {
        let all = stranded_from(chars, i);
        if text::is_ascii_lower(chars[i]) {
            let e = run_end(chars, i);
            lemma_run_end(chars, i);
            lemma_run_end(chars, i + 1);
            lemma_stranded_from(chars, e);
            let rest = stranded_from(chars, e);
            let shift: int = if touches_kana(chars, i, e) { 1 } else { 0 };
            assert(chars.subrange(i, e).len() == e - i);
            assert(is_run(chars, i, e));
            assert forall|k: int| 0 <= k < all.len() implies {
                let (start, seg) = #[trigger] all[k];
                let end = start + seg.len();
                &&& i <= start
                &&& is_run(chars, start, end)
                &&& touches_kana(chars, start, end)
                &&& seg == chars.subrange(start, end)
            } by {
                if k >= shift {
                    assert(all[k] == rest[k - shift]);
                }
            }
            assert forall|k: int, l: int| 0 <= k < l < all.len() implies (#[trigger] all[k]).0 < (
            #[trigger] all[l]).0 by {
                assert(all[l] == rest[l - shift]);
                if k >= shift {
                    assert(all[k] == rest[k - shift]);
                }
            }
            assert forall|start: int, end: int|
                i <= start && #[trigger] is_run(chars, start, end) && touches_kana(
                    chars,
                    start,
                    end,
                ) implies all.contains((start, chars.subrange(start, end))) by {
                if start < e {
                    if start > i {
                        assert(text::is_ascii_lower(chars[start - 1]));
                    }
                    assert(start == i);
                    if end < e {
                        assert(text::is_ascii_lower(chars[end]));
                    }
                    if e < end {
                        assert(text::is_ascii_lower(chars[e]));
                    }
                    assert(all[0] == (start, chars.subrange(start, end)));
                } else {
                    assert(rest.contains((start, chars.subrange(start, end))));
                    let k = choose|k: int|
                        0 <= k < rest.len() && rest[k] == (start, chars.subrange(start, end));
                    assert(all[k + shift] == rest[k]);
                }
            }
        } else {
            lemma_stranded_from(chars, i + 1);
            let next = stranded_from(chars, i + 1);
            assert(all == next);
            assert forall|k: int| 0 <= k < all.len() implies {
                let (start, seg) = #[trigger] all[k];
                let end = start + seg.len();
                &&& i <= start
                &&& is_run(chars, start, end)
                &&& touches_kana(chars, start, end)
                &&& seg == chars.subrange(start, end)
            } by {
                assert(all[k] == next[k]);
            }
            assert forall|k: int, l: int| 0 <= k < l < all.len() implies (#[trigger] all[k]).0 < (
            #[trigger] all[l]).0 by {
                assert(next[k].0 < next[l].0);
            }
            assert forall|start: int, end: int|
                i <= start && #[trigger] is_run(chars, start, end) && touches_kana(
                    chars,
                    start,
                    end,
                ) implies all.contains((start, chars.subrange(start, end))) by {
                assert(start != i);
            }
        }
    }
}

/// What is reported is a maximal run of letters `a`-`z` that touches kana.
pub proof fn law_stranded_is_run(chars: Seq<char>, k: int)
    requires
        0 <= k < stranded(chars).len(),
    ensures
        ({
            let (start, seg) = stranded(chars)[k];
            let end = start + seg.len();
            &&& is_run(chars, start, end)
            &&& touches_kana(chars, start, end)
            &&& seg == chars.subrange(start, end)
            &&& forall|j: int| 0 <= j < seg.len() ==> text::is_ascii_lower(#[trigger] seg[j])
        }),
{
    lemma_stranded_from(chars, 0);
    let (start, seg) = stranded(chars)[k];
    assert forall|j: int| 0 <= j < seg.len() implies text::is_ascii_lower(#[trigger] seg[j]) by {
        assert(text::is_ascii_lower(chars[start + j]));
    }
}

/// Every maximal run of letters `a`-`z` that touches kana is reported.
pub proof fn law_stranded_complete(chars: Seq<char>, start: int, end: int)
    requires
        is_run(chars, start, end),
        touches_kana(chars, start, end),
    ensures
        stranded(chars).contains((start, chars.subrange(start, end))),
{
    lemma_stranded_from(chars, 0);
}

/// The segments are reported from left to right, each once.
pub proof fn law_stranded_ordered(chars: Seq<char>, k: int, l: int)
    requires
        0 <= k < l < stranded(chars).len(),
    ensures
        stranded(chars)[k].0 < stranded(chars)[l].0,
{
    lemma_stranded_from(chars, 0);
}

/// A text without letters `a`-`z` has no stranded segment, and neither has one
/// without kana.
pub proof fn law_nothing_stranded(chars: Seq<char>)
    requires
        !has_ascii_lower(chars) || !text::has_kana(chars),
    ensures
        stranded(chars).len() == 0,
{
    lemma_stranded_from(chars, 0);
    if stranded(chars).len() > 0 {
        let (start, seg) = stranded(chars)[0];
        let end = start + seg.len();
        assert(is_run(chars, start, end));
        assert(text::is_ascii_lower(chars[start]));
        if start > 0 && is_kana(chars[start - 1]) {
        } else {
            assert(is_kana(chars[end]));
        }
    }
}

/// The text contains a letter `a`-`z`.
pub open spec fn has_ascii_lower(s: Seq<char>) -> bool {
    exists|i: int| 0 <= i < s.len() && text::is_ascii_lower(#[trigger] s[i])
}

/// The kana that a spelling converts to, if something comes out and no letter
/// `a`-`z` is left in it.
pub open spec fn valid_kana(spelling: Seq<char>) -> Option<Seq<char>> {
    let out = converter::romaji_to_kana(spelling);
    if out.len() > 0 && !has_ascii_lower(out) {
        Some(out)
    } else {
        None
    }
}

fn contains_ascii_lower(s: &str) -> (r: bool)
    ensures
        r == has_ascii_lower(s@),
{
    let v = chars_of(s);
    let mut i: usize = 0;
    while i < v.len()
        invariant
            i <= v.len(),
            v@ == s@,
            forall|j: int| 0 <= j < i ==> !text::is_ascii_lower(#[trigger] s@[j]),
        decreases v.len() - i,
    {
        if ascii_lower(v[i]) {
            assert(text::is_ascii_lower(s@[i as int]));
            return true;
        }
        i += 1;
    }
    false
}

/// Converts a spelling with a fresh converter and returns the kana if nothing of
/// the spelling is left as a letter `a`-`z`.
pub fn validate_romaji_segment(romaji: &str) -> (r: Option<String>)
    ensures
        r is Some <==> valid_kana(romaji@) is Some,
        r is Some ==> r->0@ == valid_kana(romaji@)->0,
{
    let mut conv = RomajiConverter::new();
    for c in it: romaji.chars()
        invariant
            it.seq() == romaji@,
            conv@ == converter::RomajiView::empty().pushed_all(romaji@.take(it.index() as int)),
    {
        conv.push(c);
        assert(romaji@.take(it.index() + 1).drop_last() =~= romaji@.take(it.index() as int));
    }
    assert(romaji@.take(romaji@.len() as int) =~= romaji@);
    conv.flush();
    let out = conv.output().to_owned();
    if !out.as_str().is_empty() && !contains_ascii_lower(out.as_str()) {
        Some(out)
    } else {
        None
    }
}

/// `chars` with `replacement` in place of the `len` characters from `start` on.
pub open spec fn rebuilt(chars: Seq<char>, start: int, len: int, replacement: Seq<char>) -> Seq<
    char,
> {
    chars.take(start) + replacement + chars.skip(start + len)
}

/// Puts `replacement` in place of the `seg_len` characters from `seg_start` on.
pub fn rebuild(chars: &[char], seg_start: usize, seg_len: usize, replacement: &str) -> (r: String)
    requires
        seg_start + seg_len <= chars.len(),
    ensures
        r@ == rebuilt(chars@, seg_start as int, seg_len as int, replacement@),
{
    let mut r = String::new();
    let mut i: usize = 0;
    while i < seg_start
        invariant
            i <= seg_start <= chars.len(),
            r@ == chars@.take(i as int),
        decreases seg_start - i,
    {
        r.push(chars[i]);
        i += 1;
    }
    r.append(replacement);
    let mut j: usize = seg_start + seg_len;
    let ghost front = r@;
    assert(front + chars@.subrange(j as int, j as int) =~= front);
    while j < chars.len()
        invariant
            seg_start + seg_len <= j <= chars.len(),
            r@ == front + chars@.subrange(seg_start + seg_len, j as int),
        decreases chars.len() - j,
    {
        r.push(chars[j]);
        j += 1;
        assert(r@ =~= front + chars@.subrange(seg_start + seg_len, j as int));
    }
    assert(chars@.subrange(seg_start + seg_len, j as int) =~= chars@.skip(seg_start + seg_len));
    r
}

pub const VOWELS: [char; 5] = ['a', 'i', 'u', 'e', 'o'];

/// The segment with each vowel inserted at `p`.
pub open spec fn insertions_at(seg: Seq<char>, p: int) -> Seq<Seq<char>> {
    Seq::new(5, |v: int| seg.insert(p, VOWELS@[v]))
}

/// The segment with each vowel inserted at each of the places before `n`.
pub open spec fn insertions_before(seg: Seq<char>, n: nat) -> Seq<Seq<char>>
    decreases n,
{
    if n == 0 {
        Seq::empty()
    } else {
        insertions_before(seg, (n - 1) as nat) + insertions_at(seg, n - 1)
    }
}

/// The segment with one vowel inserted: at the front, between letters, at the end.
pub open spec fn insertions(seg: Seq<char>) -> Seq<Seq<char>> {
    insertions_before(seg, seg.len() + 1)
}

/// The segment without one of its letters.
pub open spec fn deletions(seg: Seq<char>) -> Seq<Seq<char>> {
    Seq::new(seg.len(), |p: int| seg.remove(p))
}

/// The segment with the letter at `p` replaced by each of its neighbors.
pub open spec fn substitutions_at(seg: Seq<char>, p: int) -> Seq<Seq<char>> {
    neighbors_of(seg[p]).map_values(|c: char| seg.update(p, c))
}

pub open spec fn substitutions_before(seg: Seq<char>, n: nat) -> Seq<Seq<char>>
    decreases n,
{
    if n == 0 {
        Seq::empty()
    } else {
        substitutions_before(seg, (n - 1) as nat) + substitutions_at(seg, n - 1)
    }
}

/// The segment with one letter replaced by a neighbor on the keyboard.
pub open spec fn substitutions(seg: Seq<char>) -> Seq<Seq<char>> {
    substitutions_before(seg, seg.len())
}

/// The segment with the letters at `p` and `p + 1` swapped.
pub open spec fn swapped(seg: Seq<char>, p: int) -> Seq<char> {
    seg.update(p, seg[p + 1]).update(p + 1, seg[p])
}

/// The segment with two adjacent letters swapped.
pub open spec fn transpositions(seg: Seq<char>) -> Seq<Seq<char>> {
    Seq::new(
        if seg.len() >= 2 {
            (seg.len() - 1) as nat
        } else {
            0
        },
        |p: int| swapped(seg, p),
    )
}

pub open spec fn tagged(spellings: Seq<Seq<char>>, edit_type: EditType) -> Seq<
    (Seq<char>, EditType),
> {
    spellings.map_values(|s: Seq<char>| (s, edit_type))
}

/// All edits of a segment, in the order in which they are tried.
pub open spec fn edits(seg: Seq<char>) -> Seq<(Seq<char>, EditType)> {
    tagged(insertions(seg), EditType::Insertion) + tagged(deletions(seg), EditType::Deletion)
        + tagged(substitutions(seg), EditType::Substitution) + tagged(
        transpositions(seg),
        EditType::Transposition,
    )
}

pub open spec fn edit_views(v: Seq<(Vec<char>, EditType)>) -> Seq<(Seq<char>, EditType)> {
    v.map_values(|e: (Vec<char>, EditType)| (e.0@, e.1))
}

proof fn lemma_edit_push(v: Seq<(Vec<char>, EditType)>, e: (Vec<char>, EditType))
    ensures
        edit_views(v.push(e)) == edit_views(v).push((e.0@, e.1)),
{
    assert(edit_views(v.push(e)) =~= edit_views(v).push((e.0@, e.1)));
}

fn copied(seg: &Vec<char>) -> (r: Vec<char>)
    ensures
        r@ == seg@,
{
    let r = seg.clone();
    assert(r@ =~= seg@);
    r
}

fn push_insertions(seg: &Vec<char>, out: &mut Vec<(Vec<char>, EditType)>)
    requires
        seg.len() < usize::MAX,
    ensures
        edit_views(final(out)@) == edit_views(old(out)@) + tagged(
            insertions(seg@),
            EditType::Insertion,
        ),
{
    let ghost start = edit_views(out@);
    let mut p: usize = 0;
    assert(start + tagged(insertions_before(seg@, 0), EditType::Insertion) =~= start);
    while p <= seg.len()
        invariant
            seg.len() < usize::MAX,
            p <= seg.len() + 1,
            edit_views(out@) == start + tagged(
                insertions_before(seg@, p as nat),
                EditType::Insertion,
            ),
        decreases seg.len() + 1 - p,
    {
        let ghost row = edit_views(out@);
        let ghost here = tagged(insertions_at(seg@, p as int), EditType::Insertion);
        let mut v: usize = 0;
        assert(row + here.take(0) =~= row);
        while v < 5
            invariant
                v <= 5,
                p <= seg.len(),
                here == tagged(insertions_at(seg@, p as int), EditType::Insertion),
                edit_views(out@) == row + here.take(v as int),
            decreases 5 - v,
        {
            let mut candidate = copied(seg);
            candidate.insert(p, VOWELS[v]);
            proof {
                lemma_edit_push(out@, (candidate, EditType::Insertion));
                assert(here[v as int] == (candidate@, EditType::Insertion));
                assert(here.take(v + 1) =~= here.take(v as int).push(here[v as int]));
            }
            out.push((candidate, EditType::Insertion));
            v += 1;
        }
        proof {
            assert(here.take(5) =~= here);
            assert(tagged(insertions_before(seg@, (p + 1) as nat), EditType::Insertion) =~= tagged(
                insertions_before(seg@, p as nat),
                EditType::Insertion,
            ) + here);
            assert(row + here =~= start + tagged(
                insertions_before(seg@, (p + 1) as nat),
                EditType::Insertion,
            ));
        }
        p += 1;
    }
}

fn push_deletions(seg: &Vec<char>, out: &mut Vec<(Vec<char>, EditType)>)
    ensures
        edit_views(final(out)@) == edit_views(old(out)@) + tagged(
            deletions(seg@),
            EditType::Deletion,
        ),
{
    let ghost start = edit_views(out@);
    let ghost all = tagged(deletions(seg@), EditType::Deletion);
    let mut p: usize = 0;
    assert(start + all.take(0) =~= start);
    while p < seg.len()
        invariant
            p <= seg.len(),
            all == tagged(deletions(seg@), EditType::Deletion),
            edit_views(out@) == start + all.take(p as int),
        decreases seg.len() - p,
    {
        let mut candidate = copied(seg);
        let _ = candidate.remove(p);
        proof {
            lemma_edit_push(out@, (candidate, EditType::Deletion));
            assert(all[p as int] == (candidate@, EditType::Deletion));
            assert(all.take(p + 1) =~= all.take(p as int).push(all[p as int]));
        }
        out.push((candidate, EditType::Deletion));
        p += 1;
    }
    assert(all.take(p as int) =~= all);
}

pub(crate) fn push_substitutions(seg: &Vec<char>, out: &mut Vec<(Vec<char>, EditType)>)
    ensures
        edit_views(final(out)@) == edit_views(old(out)@) + tagged(
            substitutions(seg@),
            EditType::Substitution,
        ),
{
    let ghost start = edit_views(out@);
    let mut p: usize = 0;
    assert(start + tagged(substitutions_before(seg@, 0), EditType::Substitution) =~= start);
    while p < seg.len()
        invariant
            p <= seg.len(),
            edit_views(out@) == start + tagged(
                substitutions_before(seg@, p as nat),
                EditType::Substitution,
            ),
        decreases seg.len() - p,
    {
        let ghost row = edit_views(out@);
        let ghost here = tagged(substitutions_at(seg@, p as int), EditType::Substitution);
        let neighbors = qwerty_neighbors(seg[p]);
        let mut v: usize = 0;
        assert(row + here.take(0) =~= row);
        while v < neighbors.len()
            invariant
                v <= neighbors.len(),
                p < seg.len(),
                neighbors@ == neighbors_of(seg@[p as int]),
                here == tagged(substitutions_at(seg@, p as int), EditType::Substitution),
                edit_views(out@) == row + here.take(v as int),
            decreases neighbors.len() - v,
        {
            let mut candidate = copied(seg);
            candidate.set(p, neighbors[v]);
            proof {
                lemma_edit_push(out@, (candidate, EditType::Substitution));
                assert(here[v as int] == (candidate@, EditType::Substitution));
                assert(here.take(v + 1) =~= here.take(v as int).push(here[v as int]));
            }
            out.push((candidate, EditType::Substitution));
            v += 1;
        }
        proof {
            assert(here.take(v as int) =~= here);
            assert(tagged(substitutions_before(seg@, (p + 1) as nat), EditType::Substitution)
                =~= tagged(substitutions_before(seg@, p as nat), EditType::Substitution) + here);
            assert(row + here =~= start + tagged(
                substitutions_before(seg@, (p + 1) as nat),
                EditType::Substitution,
            ));
        }
        p += 1;
    }
}

fn push_transpositions(seg: &Vec<char>, out: &mut Vec<(Vec<char>, EditType)>)
    ensures
        edit_views(final(out)@) == edit_views(old(out)@) + tagged(
            transpositions(seg@),
            EditType::Transposition,
        ),
{
    let ghost start = edit_views(out@);
    let ghost all = tagged(transpositions(seg@), EditType::Transposition);
    let mut p: usize = 0;
    assert(start + all.take(0) =~= start);
    if seg.len() >= 2 {
        while p < seg.len() - 1
            invariant
                seg.len() >= 2,
                p <= seg.len() - 1,
                all == tagged(transpositions(seg@), EditType::Transposition),
                edit_views(out@) == start + all.take(p as int),
            decreases seg.len() - p,
        {
            let mut candidate = copied(seg);
            candidate.set(p, seg[p + 1]);
            candidate.set(p + 1, seg[p]);
            proof {
                lemma_edit_push(out@, (candidate, EditType::Transposition));
                assert(all[p as int] == (candidate@, EditType::Transposition));
                assert(all.take(p + 1) =~= all.take(p as int).push(all[p as int]));
            }
            out.push((candidate, EditType::Transposition));
            p += 1;
        }
    }
    assert(all.take(p as int) =~= all);
}

/// The edits of a segment.
fn edits_of(seg: &Vec<char>) -> (r: Vec<(Vec<char>, EditType)>)
    requires
        seg.len() < usize::MAX,
    ensures
        edit_views(r@) == edits(seg@),
{
    let mut r: Vec<(Vec<char>, EditType)> = Vec::new();
    assert(edit_views(r@) =~= Seq::empty());
    push_insertions(seg, &mut r);
    push_deletions(seg, &mut r);
    push_substitutions(seg, &mut r);
    push_transpositions(seg, &mut r);
    assert(edit_views(r@) =~= edits(seg@));
    r
}

/// The kana that stands in for a spelling: nothing for no letters at all.
pub open spec fn replacement(spelling: Seq<char>) -> Option<Seq<char>> {
    if spelling.len() == 0 {
        Some(Seq::empty())
    } else {
        valid_kana(spelling)
    }
}

fn find_replacement(spelling: &Vec<char>) -> (r: Option<String>)
    ensures
        r is Some <==> replacement(spelling@) is Some,
        r is Some ==> r->0@ == replacement(spelling@)->0,
{
    if spelling.len() == 0 {
        Some(String::new())
    } else {
        let spelled = text_of(spelling.as_slice());
        validate_romaji_segment(spelled.as_str())
    }
}

/// The readings that the edits of the `len` letters at `start` lead to, for those
/// edits that spell kana.
pub open spec fn repairs_of(
    chars: Seq<char>,
    start: int,
    len: int,
    candidates: Seq<(Seq<char>, EditType)>,
) -> Seq<HypothesisView>
    decreases candidates.len(),
{
    if candidates.len() == 0 {
        Seq::empty()
    } else {
        let before = repairs_of(chars, start, len, candidates.drop_last());
        let (spelling, edit_type) = candidates.last();
        match replacement(spelling) {
            Some(kana) => before.push(
                HypothesisView { reading: rebuilt(chars, start, len, kana), edit_type },
            ),
            None => before,
        }
    }
}

/// The repairs of one stranded segment. Of three or more letters too many edits
/// would be needed, so there are none.
pub open spec fn segment_repairs(chars: Seq<char>, segment: (int, Seq<char>)) -> Seq<
    HypothesisView,
> {
    if segment.1.len() >= 3 {
        Seq::empty()
    } else {
        repairs_of(chars, segment.0, segment.1.len() as int, edits(segment.1))
    }
}

/// The repairs of several segments, each in its turn.
pub open spec fn all_repairs(chars: Seq<char>, segments: Seq<(int, Seq<char>)>) -> Seq<
    HypothesisView,
>
    decreases segments.len(),
{
    if segments.len() == 0 {
        Seq::empty()
    } else {
        all_repairs(chars, segments.drop_last()) + segment_repairs(chars, segments.last())
    }
}

/// The hypotheses whose reading holds no ASCII character.
pub open spec fn fully_repaired(list: Seq<HypothesisView>) -> Seq<HypothesisView>
    decreases list.len(),
{
    if list.len() == 0 {
        Seq::empty()
    } else if text::has_ascii(list.last().reading) {
        fully_repaired(list.drop_last())
    } else {
        fully_repaired(list.drop_last()).push(list.last())
    }
}

/// The hypotheses for a text: of all repairs the first of each reading, at most
/// `max` of these, and of them the ones without ASCII characters.
pub open spec fn hypotheses(chars: Seq<char>, max: nat) -> Seq<HypothesisView> {
    fully_repaired(
        distinct::at_most(distinct::first_of_each(all_repairs(chars, stranded(chars))), max),
    )
}

fn has_reading(list: &Vec<FuzzyHypothesis>, reading: &String) -> (r: bool)
    ensures
        r == distinct::has_key(hypothesis_views(list@), reading@),
{
    let ghost views = hypothesis_views(list@);
    let mut i: usize = 0;
    while i < list.len()
        invariant
            i <= list.len(),
            views == hypothesis_views(list@),
            forall|j: int| 0 <= j < i ==> (#[trigger] views[j]).key() != reading@,
        decreases list.len() - i,
    {
        if list[i].reading == *reading {
            assert(views[i as int].key() == reading@);
            return true;
        }
        i += 1;
    }
    false
}

/// Adds a hypothesis unless the list is full or has the reading already.
pub(crate) fn add_hypothesis(
    list: &mut Vec<FuzzyHypothesis>,
    reading: String,
    edit_type: EditType,
    max_hypotheses: usize,
)
    requires
        old(list).len() <= max_hypotheses,
    ensures
        final(list).len() <= max_hypotheses,
        hypothesis_views(final(list)@) == distinct::at_most(
            distinct::push_new(
                hypothesis_views(old(list)@),
                HypothesisView { reading: reading@, edit_type },
            ),
            max_hypotheses as nat,
        ),
{
    let ghost before = hypothesis_views(list@);
    let ghost new = HypothesisView { reading: reading@, edit_type };
    if list.len() >= max_hypotheses {
        assert(distinct::at_most(before.push(new), max_hypotheses as nat) =~= before);
        return ;
    }
    if !has_reading(list, &reading) {
        list.push(FuzzyHypothesis { reading, edit_type });
        assert(hypothesis_views(list@) =~= before.push(new));
    }
}

/// Adds the repairs that `candidates` give for the `seg_len` letters at `seg_start`.
fn add_repairs(
    chars: &Vec<char>,
    seg_start: usize,
    seg_len: usize,
    candidates: &Vec<(Vec<char>, EditType)>,
    max_hypotheses: usize,
    list: &mut Vec<FuzzyHypothesis>,
)
    requires
        seg_start + seg_len <= chars.len(),
        old(list).len() <= max_hypotheses,
    ensures
        final(list).len() <= max_hypotheses,
        hypothesis_views(final(list)@) == distinct::at_most(
            distinct::extend_new(
                hypothesis_views(old(list)@),
                repairs_of(
                    chars@,
                    seg_start as int,
                    seg_len as int,
                    edit_views(candidates@),
                ),
            ),
            max_hypotheses as nat,
        ),
{
    let ghost base = hypothesis_views(list@);
    let ghost all = edit_views(candidates@);
    let ghost max = max_hypotheses as nat;
    let mut i: usize = 0;
    assert(all.take(0) =~= Seq::empty());
    while i < candidates.len()
        invariant
            i <= candidates.len(),
            seg_start + seg_len <= chars.len(),
            list.len() <= max_hypotheses,
            max == max_hypotheses,
            all == edit_views(candidates@),
            hypothesis_views(list@) == distinct::at_most(
                distinct::extend_new(
                    base,
                    repairs_of(chars@, seg_start as int, seg_len as int, all.take(i as int)),
                ),
                max,
            ),
        decreases candidates.len() - i,
    {
        let ghost done = repairs_of(chars@, seg_start as int, seg_len as int, all.take(i as int));
        assert(all.take(i + 1).drop_last() =~= all.take(i as int));
        assert(all.take(i + 1).last() == (candidates@[i as int].0@, candidates@[i as int].1));
        if let Some(kana) = find_replacement(&candidates[i].0) {
            let reading = rebuild(chars.as_slice(), seg_start, seg_len, kana.as_str());
            let edit_type = candidates[i].1;
            let ghost new = HypothesisView { reading: reading@, edit_type };
            proof {
                let whole = distinct::extend_new(base, done);
                distinct::lemma_cut_then_push(whole, new, max);
                distinct::lemma_extend_push(base, done, new);
            }
            add_hypothesis(list, reading, edit_type, max_hypotheses);
        }
        i += 1;
    }
    assert(all.take(i as int) =~= all);
}

/// Generates repair hypotheses for a buffer with stranded letters, at most
/// `max_hypotheses`: every reading at most once, and none with an ASCII character in it.
pub fn generate_hypotheses(buffer: &str, max_hypotheses: usize) -> (r: Vec<FuzzyHypothesis>)
    ensures
        hypothesis_views(r@) == hypotheses(buffer@, max_hypotheses as nat),
{
    let segments = find_stranded_ascii(buffer);
    let ghost segs = segment_views(segments@);
    let chars = chars_of(buffer);
    let ghost max = max_hypotheses as nat;
    let mut list: Vec<FuzzyHypothesis> = Vec::new();
    let mut i: usize = 0;
    assert(hypothesis_views(list@) =~= Seq::empty());
    assert(segs.take(0) =~= Seq::empty());
    while i < segments.len()
        invariant
            i <= segments.len(),
            chars@ == buffer@,
            segs == segment_views(segments@),
            segs == stranded(buffer@),
            max == max_hypotheses,
            list.len() <= max_hypotheses,
            hypothesis_views(list@) == distinct::at_most(
                distinct::first_of_each(all_repairs(buffer@, segs.take(i as int))),
                max,
            ),
        decreases segments.len() - i,
    {
        let seg_start = segments[i].0;
        let seg_chars = chars_of(segments[i].1.as_str());
        let seg_len = seg_chars.len();
        let ghost done = all_repairs(buffer@, segs.take(i as int));
        proof {
            assert(segs[i as int] == (seg_start as int, seg_chars@));
            law_stranded_is_run(buffer@, i as int);
            assert(segs.take(i + 1).drop_last() =~= segs.take(i as int));
            distinct::lemma_extend_concat(
                Seq::empty(),
                done,
                segment_repairs(buffer@, segs[i as int]),
            );
            distinct::lemma_cut_then_extend(
                distinct::first_of_each(done),
                segment_repairs(buffer@, segs[i as int]),
                max,
            );
        }
        if seg_len < 3 {
            let candidates = edits_of(&seg_chars);
            add_repairs(&chars, seg_start, seg_len, &candidates, max_hypotheses, &mut list);
        } else {
            assert(done + Seq::<HypothesisView>::empty() =~= done);
        }
        i += 1;
    }
    assert(segs.take(i as int) =~= segs);
    retain_repaired(list)
}

/// Keeps the hypotheses without ASCII characters: the repair of one segment leaves the
/// letters of the others.
pub(crate) fn retain_repaired(list: Vec<FuzzyHypothesis>) -> (r: Vec<FuzzyHypothesis>)
    ensures
        hypothesis_views(r@) == fully_repaired(hypothesis_views(list@)),
{
    let ghost all = hypothesis_views(list@);
    let mut r: Vec<FuzzyHypothesis> = Vec::new();
    let mut i: usize = 0;
    assert(all.take(0) =~= Seq::empty());
    assert(hypothesis_views(r@) =~= Seq::empty());
    while i < list.len()
        invariant
            i <= list.len(),
            all == hypothesis_views(list@),
            hypothesis_views(r@) == fully_repaired(all.take(i as int)),
        decreases list.len() - i,
    {
        assert(all.take(i + 1).drop_last() =~= all.take(i as int));
        assert(all.take(i + 1).last() == list@[i as int]@);
        if !contains_ascii(list[i].reading.as_str()) {
            let ghost kept = r@;
            let h = list[i].clone();
            r.push(h);
            assert(hypothesis_views(r@) =~= hypothesis_views(kept).push(h@));
        }
        i += 1;
    }
    assert(all.take(i as int) =~= all);
    r
}

/// What filtering leaves comes from the list and holds no ASCII character.
pub proof fn lemma_fully_repaired(list: Seq<HypothesisView>)
    ensures
        fully_repaired(list).len() <= list.len(),
        forall|i: int|
            0 <= i < fully_repaired(list).len() ==> {
                &&& list.contains(#[trigger] fully_repaired(list)[i])
                &&& !text::has_ascii(fully_repaired(list)[i].reading)
            },
        distinct::all_distinct(list) ==> distinct::all_distinct(fully_repaired(list)),
    decreases list.len(),
{
    if list.len() > 0 {
        let front = list.drop_last();
        lemma_fully_repaired(front);
        let kept = fully_repaired(front);
        let all = fully_repaired(list);
        assert forall|i: int| 0 <= i < all.len() implies {
            &&& list.contains(#[trigger] all[i])
            &&& !text::has_ascii(all[i].reading)
        } by {
            if i < kept.len() {
                assert(front.contains(kept[i]));
                let j = choose|j: int| 0 <= j < front.len() && front[j] == kept[i];
                assert(list[j] == all[i]);
            } else {
                assert(all[i] == list[list.len() - 1]);
            }
        }
        if distinct::all_distinct(list) {
            assert forall|i: int, j: int| 0 <= i < j < front.len() implies (#[trigger] front[i]).key()
                != (#[trigger] front[j]).key() by {
                assert(list[i].key() != list[j].key());
            }
            assert(distinct::all_distinct(kept));
            assert forall|i: int, j: int| 0 <= i < j < all.len() implies (#[trigger] all[i]).key()
                != (#[trigger] all[j]).key() by {
                assert(front.contains(kept[i]));
                let a = choose|a: int| 0 <= a < front.len() && front[a] == kept[i];
                assert(list[a] == all[i]);
                if j == kept.len() {
                    assert(list[a].key() != list[list.len() - 1].key());
                } else {
                    assert(kept[i].key() != kept[j].key());
                }
            }
        }
    }
}

/// No reading is offered twice.
pub proof fn law_hypotheses_distinct(chars: Seq<char>, max: nat)
    ensures
        distinct::all_distinct(hypotheses(chars, max)),
{
    let all = all_repairs(chars, stranded(chars));
    distinct::law_extend_distinct(Seq::<HypothesisView>::empty(), all);
    distinct::lemma_at_most_distinct(distinct::first_of_each(all), max);
    lemma_fully_repaired(distinct::at_most(distinct::first_of_each(all), max));
}

/// There are at most `max` hypotheses, and none of their readings holds an ASCII
/// character.
pub proof fn law_hypotheses_clean(chars: Seq<char>, max: nat)
    ensures
        hypotheses(chars, max).len() <= max,
        forall|i: int|
            0 <= i < hypotheses(chars, max).len() ==> !text::has_ascii(
                (#[trigger] hypotheses(chars, max)[i]).reading,
            ),
{
    let all = all_repairs(chars, stranded(chars));
    lemma_fully_repaired(distinct::at_most(distinct::first_of_each(all), max));
}

proof fn lemma_fully_repaired_prefix(list: Seq<HypothesisView>, n: int)
    requires
        0 <= n <= list.len(),
    ensures
        fully_repaired(list.take(n)).len() <= fully_repaired(list).len(),
        fully_repaired(list).take(fully_repaired(list.take(n)).len() as int) == fully_repaired(
            list.take(n),
        ),
    decreases list.len(),
{
    if n == list.len() {
        assert(list.take(n) =~= list);
        assert(fully_repaired(list).take(fully_repaired(list).len() as int) =~= fully_repaired(
            list,
        ));
    } else {
        lemma_fully_repaired_prefix(list.drop_last(), n);
        assert(list.drop_last().take(n) =~= list.take(n));
        let cut = fully_repaired(list.take(n));
        assert(fully_repaired(list).take(cut.len() as int) =~= fully_repaired(
            list.drop_last(),
        ).take(cut.len() as int));
    }
}

/// A smaller cap cuts the list short and changes nothing else.
pub proof fn law_cap_is_prefix(chars: Seq<char>, small: nat, large: nat)
    requires
        small <= large,
    ensures
        hypotheses(chars, small).len() <= hypotheses(chars, large).len(),
        hypotheses(chars, large).take(hypotheses(chars, small).len() as int) == hypotheses(
            chars,
            small,
        ),
{
    let all = distinct::first_of_each(all_repairs(chars, stranded(chars)));
    let l = distinct::at_most(all, large);
    let s = distinct::at_most(all, small);
    assert(s =~= l.take(s.len() as int));
    lemma_fully_repaired_prefix(l, s.len() as int);
}

/// A repair of the segment: an edit of its letters spells the kana that stands in
/// their place.
pub open spec fn is_repair(
    chars: Seq<char>,
    segment: (int, Seq<char>),
    edit: (Seq<char>, EditType),
    h: HypothesisView,
) -> bool {
    &&& segment.1.len() < 3
    &&& edits(segment.1).contains(edit)
    &&& replacement(edit.0) is Some
    &&& h.edit_type == edit.1
    &&& h.reading == rebuilt(chars, segment.0, segment.1.len() as int, replacement(edit.0)->0)
}

proof fn lemma_repairs_of_origin(
    chars: Seq<char>,
    start: int,
    len: int,
    candidates: Seq<(Seq<char>, EditType)>,
    i: int,
)
    requires
        0 <= i < repairs_of(chars, start, len, candidates).len(),
    ensures
        exists|e: (Seq<char>, EditType)|
            #![trigger candidates.contains(e)]
            candidates.contains(e) && replacement(e.0) is Some && repairs_of(
                chars,
                start,
                len,
                candidates,
            )[i] == (HypothesisView {
                reading: rebuilt(chars, start, len, replacement(e.0)->0),
                edit_type: e.1,
            }),
    decreases candidates.len(),
{
    if candidates.len() > 0 {
        let front = candidates.drop_last();
        let before = repairs_of(chars, start, len, front);
        if i < before.len() {
            lemma_repairs_of_origin(chars, start, len, front, i);
            let e = choose|e: (Seq<char>, EditType)|
                #![trigger front.contains(e)]
                front.contains(e) && replacement(e.0) is Some && before[i] == (HypothesisView {
                    reading: rebuilt(chars, start, len, replacement(e.0)->0),
                    edit_type: e.1,
                });
            let j = choose|j: int| 0 <= j < front.len() && front[j] == e;
            assert(candidates[j] == e);
            assert(candidates.contains(e));
        } else {
            assert(candidates[candidates.len() - 1] == candidates.last());
            assert(candidates.contains(candidates.last()));
        }
    }
}

proof fn lemma_all_repairs_origin(chars: Seq<char>, segments: Seq<(int, Seq<char>)>, i: int)
    requires
        0 <= i < all_repairs(chars, segments).len(),
    ensures
        exists|k: int, e: (Seq<char>, EditType)|
            0 <= k < segments.len() && #[trigger] is_repair(
                chars,
                segments[k],
                e,
                all_repairs(chars, segments)[i],
            ),
    decreases segments.len(),
{
    if segments.len() > 0 {
        let front = segments.drop_last();
        let before = all_repairs(chars, front);
        let h = all_repairs(chars, segments)[i];
        if i < before.len() {
            lemma_all_repairs_origin(chars, front, i);
            let (k, e) = choose|k: int, e: (Seq<char>, EditType)|
                0 <= k < front.len() && #[trigger] is_repair(chars, front[k], e, before[i]);
            assert(is_repair(chars, segments[k], e, h));
        } else {
            let seg = segments.last();
            let list = segment_repairs(chars, seg);
            assert(list[i - before.len()] == h);
            lemma_repairs_of_origin(
                chars,
                seg.0,
                seg.1.len() as int,
                edits(seg.1),
                i - before.len(),
            );
            let e = choose|e: (Seq<char>, EditType)|
                #![trigger edits(seg.1).contains(e)]
                edits(seg.1).contains(e) && replacement(e.0) is Some && h == (HypothesisView {
                    reading: rebuilt(chars, seg.0, seg.1.len() as int, replacement(e.0)->0),
                    edit_type: e.1,
                });
            assert(is_repair(chars, segments[segments.len() - 1], e, h));
        }
    }
}

/// Every hypothesis repairs one stranded segment of at most two letters by one edit,
/// and keeps the rest of the text.
pub proof fn law_hypothesis_is_repair(chars: Seq<char>, max: nat, i: int)
    requires
        0 <= i < hypotheses(chars, max).len(),
    ensures
        exists|k: int, e: (Seq<char>, EditType)|
            0 <= k < stranded(chars).len() && #[trigger] is_repair(
                chars,
                stranded(chars)[k],
                e,
                hypotheses(chars, max)[i],
            ),
{
    let all = all_repairs(chars, stranded(chars));
    let each = distinct::first_of_each(all);
    let cut = distinct::at_most(each, max);
    let h = hypotheses(chars, max)[i];
    lemma_fully_repaired(cut);
    assert(cut.contains(h));
    let a = choose|a: int| 0 <= a < cut.len() && cut[a] == h;
    assert(each[a] == h);
    distinct::law_extend_members(Seq::<HypothesisView>::empty(), all, a);
    assert(!Seq::<HypothesisView>::empty().contains(h));
    let b = choose|b: int| 0 <= b < all.len() && all[b] == h;
    lemma_all_repairs_origin(chars, stranded(chars), b);
}

/// A text without stranded letters has no hypotheses, and neither has one whose
/// stranded segments all have three letters or more.
pub proof fn law_nothing_to_repair(chars: Seq<char>, max: nat)
    requires
        forall|k: int|
            0 <= k < stranded(chars).len() ==> (#[trigger] stranded(chars)[k]).1.len() >= 3,
    ensures
        hypotheses(chars, max).len() == 0,
{
    if hypotheses(chars, max).len() > 0 {
        law_hypothesis_is_repair(chars, max, 0);
    }
}

/// The neighbors of a key are other letters, and only letters `a`-`z` have any.
pub proof fn law_neighbors(c: char)
    ensures
        neighbors_of(c).len() > 0 <==> text::is_ascii_lower(c),
        forall|i: int|
            0 <= i < neighbors_of(c).len() ==> {
                &&& text::is_ascii_lower(#[trigger] neighbors_of(c)[i])
                &&& neighbors_of(c)[i] != c
            },
        neighbors_of(c).no_duplicates(),
{
}

/// An edit that spells kana is among the repairs.
pub proof fn lemma_repairs_of_complete(
    chars: Seq<char>,
    start: int,
    len: int,
    candidates: Seq<(Seq<char>, EditType)>,
    e: (Seq<char>, EditType),
)
    requires
        candidates.contains(e),
        replacement(e.0) is Some,
    ensures
        distinct::has_key(
            repairs_of(chars, start, len, candidates),
            rebuilt(chars, start, len, replacement(e.0)->0),
        ),
    decreases candidates.len(),
{
    let front = candidates.drop_last();
    let before = repairs_of(chars, start, len, front);
    let all = repairs_of(chars, start, len, candidates);
    let reading = rebuilt(chars, start, len, replacement(e.0)->0);
    if candidates.last() == e {
        assert(all[before.len() as int].key() == reading);
    } else {
        let j = choose|j: int| 0 <= j < candidates.len() && candidates[j] == e;
        assert(front[j] == e);
        lemma_repairs_of_complete(chars, start, len, front, e);
        let i = choose|i: int| 0 <= i < before.len() && (#[trigger] before[i]).key() == reading;
        assert(all[i].key() == reading);
    }
}

proof fn lemma_all_repairs_complete(
    chars: Seq<char>,
    segments: Seq<(int, Seq<char>)>,
    k: int,
    e: (Seq<char>, EditType),
    h: HypothesisView,
)
    requires
        0 <= k < segments.len(),
        is_repair(chars, segments[k], e, h),
    ensures
        distinct::has_key(all_repairs(chars, segments), h.reading),
    decreases segments.len(),
{
    let front = segments.drop_last();
    let before = all_repairs(chars, front);
    let all = all_repairs(chars, segments);
    if k == segments.len() - 1 {
        let seg = segments[k];
        let list = segment_repairs(chars, seg);
        lemma_repairs_of_complete(chars, seg.0, seg.1.len() as int, edits(seg.1), e);
        let i = choose|i: int| 0 <= i < list.len() && (#[trigger] list[i]).key() == h.reading;
        assert(all[before.len() + i].key() == h.reading);
    } else {
        lemma_all_repairs_complete(chars, front, k, e, h);
        let i = choose|i: int| 0 <= i < before.len() && (#[trigger] before[i]).key() == h.reading;
        assert(all[i].key() == h.reading);
    }
}

proof fn lemma_fully_repaired_keeps(list: Seq<HypothesisView>, reading: Seq<char>)
    requires
        distinct::has_key(list, reading),
        !text::has_ascii(reading),
    ensures
        distinct::has_key(fully_repaired(list), reading),
    decreases list.len(),
{
    let i = choose|i: int| 0 <= i < list.len() && (#[trigger] list[i]).key() == reading;
    let front = list.drop_last();
    let kept = fully_repaired(front);
    let all = fully_repaired(list);
    if list.last().reading == reading {
        assert(all[kept.len() as int].key() == reading);
    } else {
        assert(front[i].key() == reading);
        lemma_fully_repaired_keeps(front, reading);
        let j = choose|j: int| 0 <= j < kept.len() && (#[trigger] kept[j]).key() == reading;
        assert(all[j].key() == reading);
    }
}

/// Every repair that leaves no ASCII character is offered, where the cap allows for all
/// repairs.
pub proof fn law_repair_is_offered(
    chars: Seq<char>,
    max: nat,
    k: int,
    e: (Seq<char>, EditType),
    h: HypothesisView,
)
    requires
        all_repairs(chars, stranded(chars)).len() <= max,
        0 <= k < stranded(chars).len(),
        is_repair(chars, stranded(chars)[k], e, h),
        !text::has_ascii(h.reading),
    ensures
        distinct::has_key(hypotheses(chars, max), h.reading),
{
    let none = Seq::<HypothesisView>::empty();
    let all = all_repairs(chars, stranded(chars));
    lemma_all_repairs_complete(chars, stranded(chars), k, e, h);
    distinct::law_extend_keys(none, all, h.reading);
    distinct::law_extend_keeps_list(none, all);
    lemma_fully_repaired_keeps(distinct::first_of_each(all), h.reading);
}

} // verus!
