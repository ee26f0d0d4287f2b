//! What ending a conversion does, said over what it shows and what was chosen.
use super::commit;
use super::composing;
use super::input_method::EngineView;
use super::preedit;
use super::preedit::{PreeditSegmentView, PreeditView};
use super::segments;
use super::sources;
use super::state::{ActionView, InputMode, ResultView, SegmentView, StateView};
use crate::romaji::converter::RomajiView;
use vstd::prelude::*;

verus! {

/// The text is committed, once, and nothing else is.
pub open spec fn commits_only(r: ResultView, t: Seq<char>) -> bool {
    &&& exists|i: int|
        0 <= i < r.actions.len() && #[trigger] r.actions[i] == ActionView::Commit(t) && forall|
            j: int,
        |
            0 <= j < r.actions.len() && j != i ==> !((#[trigger] r.actions[j]) is Commit)
}

/// A segment stands for the text of its selected candidate, or for its reading if none is
/// selected; what is learned of it is learned for that candidate's reading, or for its
/// own if the candidate has none.
pub proof fn law_segment_stands_for_selected(s: SegmentView)
    ensures
        ({
            let l = s.candidates;
            if 0 <= l.cursor < l.candidates.len() {
                &&& s.text() == l.candidates[l.cursor].text
                &&& l.candidates[l.cursor].reading is Some ==> s.source_reading()
                    == l.candidates[l.cursor].reading->0
                &&& l.candidates[l.cursor].reading is None ==> s.source_reading() == s.reading
            } else {
                s.text() == s.reading && s.source_reading() == s.reading
            }
        }),
{
}

/// What the segments stand for is what each of them stands for, one behind the other.
pub proof fn law_committed_text(a: Seq<SegmentView>, s: SegmentView, b: Seq<SegmentView>)
    ensures
        commit::committed_text(Seq::empty()) == Seq::<char>::empty(),
        commit::committed_text(seq![s]) == s.text(),
        commit::committed_text(a + b) == commit::committed_text(a) + commit::committed_text(b),
    decreases b.len(),
{
    assert(seq![s].drop_last() =~= Seq::<SegmentView>::empty());
    reveal_with_fuel(commit::committed_text, 2);
    assert(commit::committed_text(seq![s]) =~= s.text());
    if b.len() == 0 {
        assert(a + b =~= a);
        assert(commit::committed_text(a) + commit::committed_text(b) =~= commit::committed_text(a));
    } else {
        assert((a + b).drop_last() =~= a + b.drop_last());
        law_committed_text(a, s, b.drop_last());
        assert(commit::committed_text(a + b) =~= commit::committed_text(a)
            + commit::committed_text(b));
    }
}

/// The text of a preedit is that of its parts, one behind the other.
pub proof fn law_preedit_text(
    a: Seq<PreeditSegmentView>,
    p: PreeditSegmentView,
    b: Seq<PreeditSegmentView>,
)
    ensures
        preedit::joined(Seq::empty()) == Seq::<char>::empty(),
        preedit::joined(seq![p]) == p.text,
        preedit::joined(a + b) == preedit::joined(a) + preedit::joined(b),
    decreases b.len(),
{
    assert(seq![p].drop_last() =~= Seq::<PreeditSegmentView>::empty());
    reveal_with_fuel(preedit::joined, 2);
    assert(preedit::joined(seq![p]) =~= p.text);
    if b.len() == 0 {
        assert(a + b =~= a);
        assert(preedit::joined(a) + preedit::joined(b) =~= preedit::joined(a));
    } else {
        assert((a + b).drop_last() =~= a + b.drop_last());
        law_preedit_text(a, p, b.drop_last());
        assert(preedit::joined(a + b) =~= preedit::joined(a) + preedit::joined(b));
    }
}

proof fn lemma_shown_is_committed(e: EngineView)
    requires
        e.wf(),
        e.state is Conversion,
        segments::in_step(e),
    ensures
        commit::committed_text(e.segments) == e.state->Conversion_preedit.text(),
{
    let n = e.segments.len() as int;
    let parts = segments::preedit_parts(e.segments, e.current);
    segments::lemma_parts_joined(e.segments, e.current, n);
    assert(parts.take(n) =~= parts);
    assert(e.segments.take(n) =~= e.segments);
    assert(e.state->Conversion_preedit == segments::segments_applied(e).state->Conversion_preedit);
}

/// Return commits what the preedit shows, once, and the engine is left with nothing
/// typed; emoji mode ends.
pub proof fn law_return_commits_what_is_shown(e: EngineView)
    requires
        e.wf(),
        e.state is Conversion,
        segments::in_step(e),
    ensures
        ({
            let (f, r) = commit::conversion_committed(e);
            &&& r.consumed
            &&& commits_only(r, e.state->Conversion_preedit.text())
            &&& r.actions.contains(ActionView::UpdatePreedit(PreeditView::empty()))
            &&& r.actions.contains(ActionView::HideCandidates)
            &&& r.actions.contains(ActionView::HideAuxText)
            &&& f == EngineView {
                text: Seq::empty(),
                segments: Seq::empty(),
                current: 0,
                state: StateView::Empty,
                learning: f.learning,
                mode: if e.mode == InputMode::Emoji {
                    InputMode::Hiragana
                } else {
                    e.mode
                },
                ..e
            }
        }),
{
    lemma_shown_is_committed(e);
    let r = commit::conversion_committed(e).1;
    assert(r.actions[3] == ActionView::Commit(e.state->Conversion_preedit.text()));
    assert(r.actions[0] == ActionView::UpdatePreedit(PreeditView::empty()));
    assert(r.actions[1] == ActionView::HideCandidates);
    assert(r.actions[2] == ActionView::HideAuxText);
}

/// Typing on in a conversion commits what the preedit shows, before anything else is
/// reported and once: the same text that Return commits. It leaves the engine as Return
/// and then the character do.
pub proof fn law_typing_on_commits_what_is_shown(e: EngineView, c: char)
    requires
        e.wf(),
        e.state is Conversion,
        segments::in_step(e),
    ensures
        ({
            let (f, r) = commit::committed_and_continued(e, c);
            let returned = commit::conversion_committed(e);
            let t = e.state->Conversion_preedit.text();
            &&& r.consumed
            &&& r.actions.len() > 0
            &&& r.actions[0] == ActionView::Commit(t)
            &&& commits_only(r, t)
            &&& commits_only(returned.1, t)
            &&& r.actions.contains(ActionView::HideCandidates)
            &&& f == composing::input_started(returned.0, c)
            &&& f.learning == returned.0.learning
            &&& f.segments.len() == 0
            &&& f.state is Composing
            &&& r.actions.contains(ActionView::UpdatePreedit(f.state->Composing_preedit))
        }),
{
    lemma_shown_is_committed(e);
    law_return_commits_what_is_shown(e);
    let (f, r) = commit::committed_and_continued(e, c);
    assert(r.actions[0] == ActionView::Commit(e.state->Conversion_preedit.text()));
    assert(r.actions[1] == ActionView::HideCandidates);
    assert(r.actions[2] == ActionView::UpdatePreedit(f.state->Composing_preedit));
}

/// The text with `c` typed as the first character of a new input.
pub proof fn law_input_is_started(e: EngineView, c: char)
    ensures
        ({
            let f = composing::input_started(e, c);
            let upper = 'A' <= c <= 'Z';
            &&& f == EngineView {
                text: f.text,
                cursor: f.text.len() as int,
                romaji: f.romaji,
                mode: if e.mode == InputMode::Hiragana && upper {
                    InputMode::Alphabet
                } else {
                    e.mode
                },
                state: f.state,
                ..e
            }
            &&& f.mode == InputMode::Hiragana ==> f.romaji == RomajiView::empty().pushed(c)
                && f.text == RomajiView::empty().pushed(c).output
            &&& f.mode != InputMode::Hiragana ==> f.romaji == RomajiView::empty() && f.text
                == seq![c]
            &&& f.state == (StateView::Composing {
                preedit: PreeditView::underlined(
                    f.text + f.romaji.pending,
                    (f.text.len() + f.romaji.pending.len()) as int,
                ),
                romaji_buffer: f.romaji.pending,
            })
        }),
{
    let f = composing::input_started(e, c);
    let none = Seq::<char>::empty();
    let r = RomajiView::empty().pushed(c);
    assert(r.output.skip(0) =~= r.output);
    assert(none.take(0) + r.output + none.skip(0) =~= r.output);
    assert(none.take(0) + seq![c] + none.skip(0) =~= seq![c]);
    let n = f.text.len() as int;
    assert(f.text.take(n) + f.romaji.pending + f.text.skip(n) =~= f.text + f.romaji.pending);
}

/// One of the segments was chosen like this.
pub open spec fn chosen(segments: Seq<SegmentView>, x: (Seq<char>, Seq<char>)) -> bool {
    exists|i: int|
        0 <= i < segments.len() && x == ((#[trigger] segments[i]).source_reading(), segments[i].text())
}

/// An entry of the cache that was not chosen.
pub open spec fn not_chosen(segments: Seq<SegmentView>) -> spec_fn((Seq<char>, Seq<char>)) -> bool {
    |x: (Seq<char>, Seq<char>)| !chosen(segments, x)
}

proof fn lemma_filter_twice(
    entries: Seq<(Seq<char>, Seq<char>)>,
    x: (Seq<char>, Seq<char>),
    q: spec_fn((Seq<char>, Seq<char>)) -> bool,
)
    requires
        !q(x),
    ensures
        entries.filter(sources::other_than(x)).filter(q) == entries.filter(q),
    decreases entries.len(),
{
    reveal(Seq::filter);
    if entries.len() > 0 {
        lemma_filter_twice(entries.drop_last(), x, q);
        let front = entries.drop_last().filter(sources::other_than(x));
        if entries.last() != x {
            assert(front.push(entries.last()).drop_last() =~= front);
        }
    } else {
        assert(entries.filter(sources::other_than(x)) =~= entries);
    }
}

proof fn lemma_filter_front(
    x: (Seq<char>, Seq<char>),
    rest: Seq<(Seq<char>, Seq<char>)>,
    q: spec_fn((Seq<char>, Seq<char>)) -> bool,
)
    requires
        !q(x),
    ensures
        (seq![x] + rest).filter(q) == rest.filter(q),
    decreases rest.len(),
{
    reveal(Seq::filter);
    let all = seq![x] + rest;
    if rest.len() == 0 {
        assert(all.drop_last() =~= Seq::empty());
        assert(all.last() == x);
        assert(all.drop_last().filter(q) =~= Seq::empty());
        assert(all.filter(q) =~= rest.filter(q));
    } else {
        assert(all.drop_last() =~= seq![x] + rest.drop_last());
        lemma_filter_front(x, rest.drop_last(), q);
    }
}

proof fn lemma_choices(
    entries: Seq<(Seq<char>, Seq<char>)>,
    segments: Seq<SegmentView>,
    q: spec_fn((Seq<char>, Seq<char>)) -> bool,
)
    requires
        forall|i: int|
            0 <= i < segments.len() ==> !q(
                ((#[trigger] segments[i]).source_reading(), segments[i].text()),
            ),
    ensures
        commit::choices_learned(entries, segments).filter(q) == entries.filter(q),
    decreases segments.len(),
{
    if segments.len() > 0 {
        let shorter = segments.drop_last();
        assert forall|i: int| 0 <= i < shorter.len() implies !q(
            ((#[trigger] shorter[i]).source_reading(), shorter[i].text()),
        ) by {
            assert(shorter[i] == segments[i]);
        }
        lemma_choices(entries, shorter, q);
        let before = commit::choices_learned(entries, shorter);
        let s = segments[segments.len() - 1];
        let x = (s.source_reading(), s.text());
        sources::law_record(before, s.source_reading(), s.text());
        lemma_filter_front(x, before.filter(sources::other_than(x)), q);
        lemma_filter_twice(before, x, q);
    }
}

/// A commit changes the learning cache by what was chosen and by nothing else: what was
/// not chosen stays, in its order, and nothing that was not chosen comes in. What was
/// chosen in the last segment stands in front. Emoji are not learned.
pub proof fn law_choices_are_learned(e: EngineView)
    requires
        e.segments.len() > 0,
    ensures
        ({
            let after = commit::conversion_committed(e).0.learning;
            let s = e.segments.last();
            match e.learning {
                Some(entries) => {
                    &&& after is Some
                    &&& e.mode == InputMode::Emoji ==> after == e.learning
                    &&& e.mode != InputMode::Emoji ==> {
                        &&& after->0.filter(not_chosen(e.segments)) == entries.filter(
                            not_chosen(e.segments),
                        )
                        &&& forall|i: int|
                            0 <= i < e.segments.len() ==> after->0.contains(
                                ((#[trigger] e.segments[i]).source_reading(), e.segments[i].text()),
                            )
                        &&& after->0.len() > 0 && after->0[0] == (s.source_reading(), s.text())
                    }
                },
                None => after is None,
            }
        }),
{
    if e.learning is Some && e.mode != InputMode::Emoji {
        let entries = e.learning->0;
        lemma_choices(entries, e.segments, not_chosen(e.segments));
        assert forall|i: int| 0 <= i < e.segments.len() implies commit::choices_learned(
            entries,
            e.segments,
        ).contains(((#[trigger] e.segments[i]).source_reading(), e.segments[i].text())) by {
            commit::law_every_choice_is_learned(entries, e.segments, i);
        }
    }
}

/// Escape and Backspace in a conversion show the reading again, with the caret behind it,
/// and hide the candidates; nothing else changes.
pub proof fn law_cancel_goes_back(e: EngineView)
    requires
        e.wf(),
        e.state is Conversion,
    ensures
        ({
            let (f, r) = commit::cancelled(e);
            let n = e.text.len() as int;
            &&& r.consumed
            &&& r.actions.contains(ActionView::HideCandidates)
            &&& f == EngineView {
                segments: Seq::empty(),
                current: 0,
                cursor: n,
                romaji: if n > 0 {
                    RomajiView { output: e.text, pending: Seq::empty() }
                } else {
                    e.romaji
                },
                state: if n > 0 {
                    StateView::Composing {
                        preedit: PreeditView::underlined(e.text, n),
                        romaji_buffer: Seq::empty(),
                    }
                } else {
                    StateView::Empty
                },
                ..e
            }
            &&& r.actions[0] == ActionView::UpdatePreedit(
                if n > 0 {
                    PreeditView::underlined(e.text, n)
                } else {
                    PreeditView::empty()
                },
            )
        }),
{
    let n = e.text.len() as int;
    let r = commit::cancelled(e).1;
    assert(e.text.take(n) + Seq::<char>::empty() + e.text.skip(n) =~= e.text);
    assert(r.actions[1] == ActionView::HideCandidates);
}

} // verus!
