//! Converts romaji to kana one key at a time.
use super::rules;
use super::rules::{check_onset, find_row, find_syllable, to_punctuation};
use crate::text;
use crate::text::text_of;
use vstd::prelude::*;

verus! {

/// The kana produced so far, and the letters that wait for more input.
#[verifier::ext_equal]
pub struct RomajiView {
    pub output: Seq<char>,
    pub pending: Seq<char>,
}

impl RomajiView {
    pub open spec fn empty() -> RomajiView {
        RomajiView { output: Seq::empty(), pending: Seq::empty() }
    }

    /// Resolves as much of the pending letters as can be resolved: what remains
    /// pending is an onset, or nothing.
    pub open spec fn settled(self) -> RomajiView
        decreases self.pending.len(),
    {
        let p = self.pending;
        if p.len() == 0 {
            self
        } else if rules::syllable(p) is Some {
            RomajiView { output: self.output + rules::syllable(p)->0, pending: Seq::empty() }
        } else if p.len() == 2 && p[0] == 'n' && (p[1] == 'n' || p[1] == '\'') {
            RomajiView { output: self.output.push('ん'), pending: Seq::empty() }
        } else if rules::is_onset(p) {
            self
        } else {
            RomajiView {
                output: self.output.push(leading_kana(p)),
                pending: p.drop_first(),
            }.settled()
        }
    }

    /// The state after the key `c`.
    pub open spec fn pushed(self, c: char) -> RomajiView {
        RomajiView { output: self.output, pending: self.pending.push(c) }.settled()
    }

    /// The state after the keys `keys`.
    pub open spec fn pushed_all(self, keys: Seq<char>) -> RomajiView
        decreases keys.len(),
    {
        if keys.len() == 0 {
            self
        } else {
            self.pushed_all(keys.drop_last()).pushed(keys.last())
        }
    }

    /// The state when no more input comes: a pending `n` becomes `ん`, other
    /// letters stand as they are.
    pub open spec fn flushed(self) -> RomajiView {
        if self.pending =~= seq!['n'] {
            RomajiView { output: self.output.push('ん'), pending: Seq::empty() }
        } else {
            RomajiView { output: self.output + self.pending, pending: Seq::empty() }
        }
    }
}

/// What the first of letters that spell nothing becomes: `ん` for an `n`, `っ` for
/// the first half of a doubled consonant, otherwise the character itself, in its
/// Japanese form if it is punctuation.
pub open spec fn leading_kana(p: Seq<char>) -> char {
    if p.len() >= 2 && p[0] == 'n' {
        'ん'
    } else if p.len() >= 2 && rules::row_of_letter(p[0]) is Some && (p[1] == p[0] || (p[0] == 't' && p[1]
        == 'c')) {
        'っ'
    } else {
        rules::punctuation(p[0])
    }
}

/// The text that a romaji spelling converts to.
pub open spec fn romaji_to_kana(spelling: Seq<char>) -> Seq<char> {
    RomajiView::empty().pushed_all(spelling).flushed().output
}

/// An incremental romaji converter.
#[derive(Debug)]
pub struct RomajiConverter {
    output: String,
    pending: Vec<char>,
}

impl View for RomajiConverter {
    type V = RomajiView;

    closed spec fn view(&self) -> RomajiView {
        RomajiView { output: self.output@, pending: self.pending@ }
    }
}

impl Clone for RomajiConverter {
    fn clone(&self) -> (r: Self)
        ensures
            r@ == self@,
    {
        let pending = self.pending.clone();
        assert(pending@ =~= self.pending@);
        RomajiConverter { output: self.output.clone(), pending }
    }
}

impl RomajiConverter {
    pub fn new() -> (r: Self)
        ensures
            r@ == RomajiView::empty(),
    {
        RomajiConverter { output: String::new(), pending: Vec::new() }
    }

    /// Forgets all output and all pending letters.
    pub fn reset(&mut self)
        ensures
            final(self)@ == RomajiView::empty(),
    {
        self.output = String::new();
        self.pending = Vec::new();
    }

    /// Takes `text` for the kana produced so far, with nothing pending.
    pub fn restore(&mut self, text: &str)
        ensures
            final(self)@ == (RomajiView { output: text@, pending: Seq::empty() }),
    {
        self.output = text.to_owned();
        self.pending = Vec::new();
    }

    /// The kana produced so far.
    pub fn output(&self) -> (r: &str)
        ensures
            r@ == self@.output,
    {
        self.output.as_str()
    }

    /// The letters that wait for more input.
    pub fn buffer(&self) -> (r: String)
        ensures
            r@ == self@.pending,
    {
        text_of(self.pending.as_slice())
    }

    /// Takes one key.
    pub fn push(&mut self, c: char)
        ensures
            final(self)@ == old(self)@.pushed(c),
    {
        self.pending.push(c);
        self.settle();
    }

    fn settle(&mut self)
        ensures
            final(self)@ == old(self)@.settled(),
    {
        let ghost start = self@;
        while self.pending.len() > 0
            invariant
                start == old(self)@,
                self@.settled() == start.settled(),
            decreases self.pending.len(),
        {
            let ghost current = self@;
            if let Some(kana) = find_syllable(&self.pending) {
                let kana_text = text_of(kana.as_slice());
                self.output.append(kana_text.as_str());
                self.pending = Vec::new();
                assert(self@ =~= current.settled());
                return ;
            }
            if self.pending.len() == 2 && self.pending[0] == 'n' && (self.pending[1] == 'n'
                || self.pending[1] == '\'') {
                self.output.push('ん');
                self.pending = Vec::new();
                assert(self@ =~= current.settled());
                return ;
            }
            if check_onset(&self.pending) {
                return ;
            }
            let first = self.pending[0];
            let kana = if self.pending.len() >= 2 && first == 'n' {
                'ん'
            } else if self.pending.len() >= 2 && starts_doubling(first, self.pending[1]) {
                'っ'
            } else {
                to_punctuation(first)
            };
            self.output.push(kana);
            let ghost before = self.pending@;
            let _ = self.pending.remove(0);
            assert(self.pending@ =~= before.drop_first());
        }
    }

    /// Resolves what is pending when no more input comes.
    pub fn flush(&mut self)
        ensures
            final(self)@ == old(self)@.flushed(),
    {
        if self.pending.len() == 1 && self.pending[0] == 'n' {
            assert(self.pending@ =~= seq!['n']);
            self.output.push('ん');
        } else {
            assert(!(self.pending@ =~= seq!['n'])) by {
                if self.pending@ =~= seq!['n'] {
                    assert(self.pending@[0] == 'n');
                }
            }
            let rest = text_of(self.pending.as_slice());
            self.output.append(rest.as_str());
        }
        self.pending = Vec::new();
    }
}

fn starts_doubling(first: char, second: char) -> (r: bool)
    ensures
        r == (rules::row_of_letter(first) is Some && (second == first || (first == 't' && second == 'c'))),
{
    let letters = vec![first];
    assert(letters@.take(1) =~= letters@);
    find_row(letters.as_slice(), 1).is_some() && (second == first || (first == 't' && second
        == 'c'))
}

/// Settling only appends to the output.
proof fn lemma_settled_extends(s: RomajiView)
    ensures
        text::starts_with(s.settled().output, s.output),
        s.settled().pending.len() == 0 || rules::is_onset(s.settled().pending),
    decreases s.pending.len(),
{
    let p = s.pending;
    if p.len() == 0 {
    } else if rules::syllable(p) is Some {
        assert(s.settled().output.take(s.output.len() as int) =~= s.output);
    } else if p.len() == 2 && p[0] == 'n' && (p[1] == 'n' || p[1] == '\'') {
        assert(s.settled().output.take(s.output.len() as int) =~= s.output);
    } else if rules::is_onset(p) {
    } else {
        let next = RomajiView { output: s.output.push(leading_kana(p)), pending: p.drop_first() };
        lemma_settled_extends(next);
        assert(s.settled() == next.settled());
        assert forall|i: int| 0 <= i < s.output.len() implies next.settled().output[i]
            == s.output[i] by {
            assert(next.settled().output.take(next.output.len() as int)[i] == next.output[i]);
        }
        assert(s.settled().output.take(s.output.len() as int) =~= s.output);
    }
    assert(s.output.take(s.output.len() as int) =~= s.output);
}

/// A key never changes what has already been produced, and leaves nothing pending
/// but letters that a vowel can complete.
pub proof fn law_push_extends_output(s: RomajiView, c: char)
    ensures
        text::starts_with(s.pushed(c).output, s.output),
        s.pushed(c).pending.len() == 0 || rules::is_onset(s.pushed(c).pending),
{
    lemma_settled_extends(RomajiView { output: s.output, pending: s.pending.push(c) });
}

/// Flushing leaves nothing pending and keeps what has been produced; flushing
/// again changes nothing.
pub proof fn law_flush_empties_pending(s: RomajiView)
    ensures
        s.flushed().pending.len() == 0,
        text::starts_with(s.flushed().output, s.output),
        s.flushed().flushed() == s.flushed(),
{
    assert(s.flushed().output.take(s.output.len() as int) =~= s.output);
    assert(s.flushed().flushed() =~= s.flushed());
}

/// Kana passes through unchanged: after a text of kana the output is that text,
/// with nothing pending.
pub proof fn law_kana_passes_through(text: Seq<char>)
    requires
        forall|i: int| 0 <= i < text.len() ==> text::is_kana(#[trigger] text[i]),
    ensures
        RomajiView::empty().pushed_all(text) == (RomajiView { output: text, pending: Seq::empty() }),
        romaji_to_kana(text) == text,
    decreases text.len(),
{
    if text.len() > 0 {
        law_kana_passes_through(text.drop_last());
        let c = text.last();
        let s = RomajiView { output: text.drop_last(), pending: seq![c] };
        assert(RomajiView::empty().pushed_all(text.drop_last()).pending.push(c) =~= s.pending);
        assert(s.pending.drop_last() =~= Seq::<char>::empty());
        reveal_with_fuel(RomajiView::settled, 3);
        assert(s.pending.drop_first() =~= Seq::<char>::empty());
        assert(text.drop_last().push(c) =~= text);
    }
    assert(RomajiView::empty().pushed_all(text) =~= (RomajiView {
        output: text,
        pending: Seq::empty(),
    }));
    assert(text + Seq::<char>::empty() =~= text);
    assert(!(Seq::<char>::empty() =~= seq!['n'])) by {
        assert(seq!['n'].len() == 1);
    }
}

} // verus!
