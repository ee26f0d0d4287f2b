//! Ending a conversion: committing what was chosen, or going back to the reading.
use super::composing;
use super::input_method::{EngineView, InputMethodEngine};
use super::preedit::{Preedit, PreeditView};
use super::segments;
use super::sources;
use super::state;
use super::state::{
    ActionView, EngineAction, EngineResult, InputMode, InputState, ResultView, SegmentView,
    StateView,
};
use crate::romaji::converter::RomajiView;
use crate::text::char_count;
use vstd::prelude::*;

verus! {

/// The texts that the segments stand for, one behind the other.
pub open spec fn committed_text(segments: Seq<SegmentView>) -> Seq<char>
    decreases segments.len(),
{
    if segments.len() == 0 {
        Seq::empty()
    } else {
        committed_text(segments.drop_last()) + segments.last().text()
    }
}

/// The learning cache after the choice in each segment was recorded, from the first
/// segment to the last.
pub open spec fn choices_learned(
    entries: Seq<(Seq<char>, Seq<char>)>,
    segments: Seq<SegmentView>,
) -> Seq<(Seq<char>, Seq<char>)>
    decreases segments.len(),
{
    if segments.len() == 0 {
        entries
    } else {
        sources::learned(
            choices_learned(entries, segments.drop_last()),
            segments.last().source_reading(),
            segments.last().text(),
        )
    }
}

/// The learning cache after the segments were committed. Shortcodes for emoji are
/// not learned.
pub open spec fn learning_after(e: EngineView, segments: Seq<SegmentView>) -> Option<
    Seq<(Seq<char>, Seq<char>)>,
> {
    match e.learning {
        Some(entries) => if e.mode == InputMode::Emoji {
            Some(entries)
        } else {
            Some(choices_learned(entries, segments))
        },
        None => None,
    }
}

/// The engine after its segments were taken: the choices are learned, no segment is
/// left, and nothing is being converted.
pub open spec fn drained(e: EngineView) -> EngineView {
    EngineView {
        learning: learning_after(e, e.segments),
        segments: Seq::empty(),
        current: 0,
        state: StateView::Empty,
        ..e
    }
}

/// Emoji mode ends with the shortcode.
pub open spec fn mode_left(mode: InputMode) -> InputMode {
    if mode == InputMode::Emoji {
        InputMode::Hiragana
    } else {
        mode
    }
}

/// The engine after all segments were committed.
pub open spec fn all_committed(e: EngineView) -> EngineView {
    EngineView { text: Seq::empty(), mode: mode_left(e.mode), ..drained(e) }
}

/// Committing all segments, and what is reported.
pub open spec fn conversion_committed(e: EngineView) -> (EngineView, ResultView) {
    if e.segments.len() == 0 {
        (e, ResultView::not_consumed())
    } else {
        (
            all_committed(e),
            ResultView::consumed(
                seq![
                    ActionView::UpdatePreedit(PreeditView::empty()),
                    ActionView::HideCandidates,
                    ActionView::HideAuxText,
                    ActionView::Commit(committed_text(e.segments)),
                ],
            ),
        )
    }
}

/// Committing all segments and starting a new input with `c`, and what is reported.
pub open spec fn committed_and_continued(e: EngineView, c: char) -> (EngineView, ResultView) {
    if e.segments.len() == 0 {
        (e, ResultView::not_consumed())
    } else {
        let next = composing::input_started(all_committed(e), c);
        (
            next,
            ResultView::consumed(
                seq![ActionView::Commit(committed_text(e.segments)), ActionView::HideCandidates]
                    + composing::composing_result(next).actions,
            ),
        )
    }
}

/// The engine back at typing the reading, with the caret at its end and nothing
/// pending.
pub open spec fn back_to_reading(e: EngineView) -> EngineView {
    composing::composing(
        EngineView {
            segments: Seq::empty(),
            current: 0,
            cursor: e.text.len() as int,
            romaji: RomajiView { output: e.text, pending: Seq::empty() },
            ..e
        },
    )
}

/// Leaving a conversion without committing, and what is reported.
pub open spec fn cancelled(e: EngineView) -> (EngineView, ResultView) {
    if !(e.state is Conversion) {
        (e, ResultView::not_consumed())
    } else if e.text.len() == 0 {
        (
            EngineView { segments: Seq::empty(), current: 0, cursor: 0, state: StateView::Empty, ..e },
            ResultView::consumed(
                seq![
                    ActionView::UpdatePreedit(PreeditView::empty()),
                    ActionView::HideCandidates,
                    ActionView::HideAuxText,
                ],
            ),
        )
    } else {
        (
            back_to_reading(e),
            ResultView::consumed(
                seq![
                    ActionView::UpdatePreedit(composing::composing_preedit(back_to_reading(e))),
                    ActionView::HideCandidates,
                    ActionView::UpdateAuxText(composing::mode_label(e.mode)),
                ],
            ),
        )
    }
}

impl InputMethodEngine {
    /// Remembers that `surface` was chosen for `reading`, if there is a learning
    /// cache.
    pub fn record_learning(&mut self, reading: &str, surface: &str)
        ensures
            final(self)@ == (EngineView {
                learning: match old(self)@.learning {
                    Some(entries) => Some(sources::learned(entries, reading@, surface@)),
                    None => None,
                },
                ..old(self)@
            }),
    {
        let ghost start = self@;
        let mut learning = self.learning.take();
        if let Some(cache) = &mut learning {
            cache.record(reading, surface);
        }
        self.learning = learning;
        assert(self@ =~= (EngineView { learning: self@.learning, ..start }));
    }

    /// Takes all segments: records what was chosen, and returns the texts, one behind
    /// the other. Nothing is being converted any more.
    pub fn drain_segments(&mut self) -> (r: String)
        ensures
            final(self)@ == drained(old(self)@),
            r@ == committed_text(old(self)@.segments),
    {
        let ghost start = self@;
        let segments = self.segments.clone();
        let ghost all = state::segment_views(segments@);
        assert(all =~= start.segments) by {
            assert forall|i: int| 0 <= i < all.len() implies all[i] == start.segments[i] by {
                assert(cloned(self.segments@[i], segments@[i]));
            }
        }
        self.segments = Vec::new();
        self.current_segment = 0;
        self.state = InputState::Empty;
        let mut committed = String::new();
        let mut i: usize = 0;
        assert(state::segment_views(self.segments@) =~= Seq::empty());
        assert(all.take(0) =~= Seq::empty());
        assert(self@ =~= (EngineView { learning: learning_after(start, all.take(0)), ..drained(start) }));
        while i < segments.len()
            invariant
                i <= segments.len(),
                start == old(self)@,
                all == start.segments,
                all == state::segment_views(segments@),
                committed@ == committed_text(all.take(i as int)),
                self@ == (EngineView {
                    learning: learning_after(start, all.take(i as int)),
                    ..drained(start)
                }),
            decreases segments.len() - i,
        {
            assert(all.take(i + 1).drop_last() =~= all.take(i as int));
            assert(all.take(i + 1).last() == segments@[i as int]@);
            let t = segments[i].text();
            if self.input_mode != InputMode::Emoji {
                let reading = segments[i].source_reading();
                self.record_learning(reading.as_str(), t.as_str());
            }
            committed.append(t.as_str());
            i += 1;
        }
        assert(all.take(i as int) =~= all);
        committed
    }

    /// Leaves emoji mode, if it is on.
    pub fn exit_emoji_mode(&mut self)
        ensures
            final(self)@ == (EngineView { mode: mode_left(old(self)@.mode), ..old(self)@ }),
    {
        if self.input_mode == InputMode::Emoji {
            self.input_mode = InputMode::Hiragana;
        }
    }

    /// Commits all segments.
    pub fn commit_conversion(&mut self) -> (r: EngineResult)
        ensures
            final(self)@ == conversion_committed(old(self)@).0,
            r@ == conversion_committed(old(self)@).1,
    {
        let ghost start = self@;
        assert(start.segments.len() == self.segments.len());
        if self.segments.len() == 0 {
            return EngineResult::not_consumed();
        }
        let t = self.drain_segments();
        self.input_buf.text = String::new();
        self.exit_emoji_mode();
        assert(self@ =~= all_committed(start));
        let r = EngineResult::consumed().with_action(
            EngineAction::UpdatePreedit(Preedit::new()),
        ).with_action(EngineAction::HideCandidates).with_action(
            EngineAction::HideAuxText,
        ).with_action(EngineAction::Commit(t));
        assert(r@ =~= conversion_committed(start).1);
        r
    }

    /// Commits all segments and starts a new input with `c`.
    pub fn commit_conversion_and_continue(&mut self, c: char) -> (r: EngineResult)
        ensures
            final(self)@ == committed_and_continued(old(self)@, c).0,
            r@ == committed_and_continued(old(self)@, c).1,
    {
        let ghost start = self@;
        assert(start.segments.len() == self.segments.len());
        if self.segments.len() == 0 {
            return EngineResult::not_consumed();
        }
        let t = self.drain_segments();
        self.input_buf.text = String::new();
        self.exit_emoji_mode();
        assert(self@ =~= all_committed(start));
        let next = self.start_input(c);
        let r = EngineResult::consumed().with_action(EngineAction::Commit(t)).with_action(
            EngineAction::HideCandidates,
        ).with_actions_of(next);
        assert(r@ =~= committed_and_continued(start, c).1);
        r
    }

    /// Leaves the conversion and goes back to typing the reading.
    pub fn cancel_conversion(&mut self) -> (r: EngineResult)
        ensures
            final(self)@ == cancelled(old(self)@).0,
            r@ == cancelled(old(self)@).1,
    {
        let ghost start = self@;
        match &self.state {
            InputState::Conversion { .. } => {},
            _ => {
                return EngineResult::not_consumed();
            },
        }
        self.segments = Vec::new();
        self.current_segment = 0;
        assert(state::segment_views(self.segments@) =~= Seq::empty());
        if self.input_buf.text.as_str().is_empty() {
            self.state = InputState::Empty;
            self.input_buf.text = String::new();
            self.input_buf.cursor_pos = 0;
            let r = EngineResult::consumed().with_action(
                EngineAction::UpdatePreedit(Preedit::new()),
            ).with_action(EngineAction::HideCandidates).with_action(EngineAction::HideAuxText);
            assert(r@ =~= cancelled(start).1);
            assert(self@ =~= cancelled(start).0);
            return r;
        }
        self.input_buf.cursor_pos = char_count(self.input_buf.text.as_str());
        self.converters.romaji.restore(self.input_buf.text.as_str());
        let preedit = self.set_composing_state();
        let aux = self.format_aux_composing();
        let r = EngineResult::consumed().with_action(
            EngineAction::UpdatePreedit(preedit),
        ).with_action(EngineAction::HideCandidates).with_action(EngineAction::UpdateAuxText(aux));
        assert(self@ =~= back_to_reading(start));
        assert(r@ =~= cancelled(start).1);
        r
    }

    /// The key Backspace in a conversion: back to the reading.
    pub fn backspace_conversion(&mut self) -> (r: EngineResult)
        ensures
            final(self)@ == cancelled(old(self)@).0,
            r@ == cancelled(old(self)@).1,
    {
        self.cancel_conversion()
    }
}

pub proof fn lemma_commit_wf(e: EngineView)
    requires
        e.wf(),
    ensures
        conversion_committed(e).0.wf(),
        cancelled(e).0.wf(),
{
}

pub proof fn lemma_continue_wf(e: EngineView, c: char)
    requires
        e.wf(),
    ensures
        committed_and_continued(e, c).0.wf(),
{
}

/// What is committed is what the preedit shows.
pub proof fn law_commit_is_what_was_shown(e: EngineView)
    requires
        e.wf(),
        segments::in_step(e),
        e.state is Conversion,
    ensures
        conversion_committed(e).1.actions.contains(
            ActionView::Commit(e.state->Conversion_preedit.text()),
        ),
{
    let parts = segments::preedit_parts(e.segments, e.current);
    segments::lemma_parts_joined(e.segments, e.current, e.segments.len() as int);
    assert(parts.take(e.segments.len() as int) =~= parts);
    assert(e.segments.take(e.segments.len() as int) =~= e.segments);
    assert(segments::segments_applied(e).state->Conversion_preedit == segments::segments_preedit(
        e.segments,
        e.current,
    ));
    assert(conversion_committed(e).1.actions[3] == ActionView::Commit(committed_text(e.segments)));
}

/// An emoji that was chosen by its shortcode is not learned, and emoji mode ends.
pub proof fn law_emoji_is_not_learned(e: EngineView)
    requires
        e.mode == InputMode::Emoji,
        e.segments.len() > 0,
    ensures
        conversion_committed(e).0.learning == e.learning,
        conversion_committed(e).0.mode == InputMode::Hiragana,
{
}

/// Outside emoji mode what was chosen in the last segment is what the learning cache
/// offers first for its reading afterwards.
pub proof fn law_choice_is_learned(e: EngineView)
    requires
        e.mode != InputMode::Emoji,
        e.segments.len() > 0,
        e.learning is Some,
    ensures
        conversion_committed(e).0.learning is Some,
        ({
            let learned = sources::learned_for(
                conversion_committed(e).0.learning->0,
                e.segments.last().source_reading(),
            );
            learned.len() > 0 && learned[0] == e.segments.last().text()
        }),
{
    sources::law_recorded_comes_first(
        choices_learned(e.learning->0, e.segments.drop_last()),
        e.segments.last().source_reading(),
        e.segments.last().text(),
    );
}

/// Every choice that is committed is in the learning cache afterwards.
pub proof fn law_every_choice_is_learned(
    entries: Seq<(Seq<char>, Seq<char>)>,
    segments: Seq<SegmentView>,
    i: int,
)
    requires
        0 <= i < segments.len(),
    ensures
        choices_learned(entries, segments).contains(
            (segments[i].source_reading(), segments[i].text()),
        ),
    decreases segments.len(),
{
    let all = choices_learned(entries, segments);
    let x = (segments.last().source_reading(), segments.last().text());
    assert(all[0] == x);
    if i < segments.len() - 1 {
        let shorter = segments.drop_last();
        law_every_choice_is_learned(entries, shorter, i);
        let before = choices_learned(entries, shorter);
        let y = (segments[i].source_reading(), segments[i].text());
        assert(shorter[i] == segments[i]);
        if y != x {
            lemma_without_keeps(before, x, y);
            let rest = sources::without(before, x);
            let j = choose|j: int| 0 <= j < rest.len() && rest[j] == y;
            assert(all[j + 1] == y);
        }
    }
}

proof fn lemma_without_keeps(
    entries: Seq<(Seq<char>, Seq<char>)>,
    x: (Seq<char>, Seq<char>),
    y: (Seq<char>, Seq<char>),
)
    requires
        entries.contains(y),
        x != y,
    ensures
        sources::without(entries, x).contains(y),
    decreases entries.len(),
{
    let i = choose|i: int| 0 <= i < entries.len() && entries[i] == y;
    let shorter = entries.drop_last();
    let before = sources::without(shorter, x);
    let after = sources::without(entries, x);
    if i < shorter.len() {
        assert(shorter[i] == y);
        lemma_without_keeps(shorter, x, y);
        let j = choose|j: int| 0 <= j < before.len() && before[j] == y;
        assert(after[j] == y);
    } else {
        assert(after[before.len() as int] == y);
    }
}

/// Going back from a conversion keeps the reading, commits nothing and learns nothing;
/// the caret stands behind the reading.
pub proof fn law_cancel_keeps_reading(e: EngineView)
    requires
        e.wf(),
    ensures
        cancelled(e).0.text == e.text,
        cancelled(e).0.learning == e.learning,
        e.state is Conversion ==> {
            &&& !(cancelled(e).0.state is Conversion)
            &&& cancelled(e).0.segments.len() == 0
            &&& cancelled(e).0.cursor == e.text.len()
        },
        forall|i: int|
            0 <= i < cancelled(e).1.actions.len() ==> !((
            #[trigger] cancelled(e).1.actions[i]) is Commit),
{
}

/// Going back from a conversion shows the reading again, as it was typed, and nothing
/// is pending.
pub proof fn law_cancel_shows_reading(e: EngineView)
    requires
        e.state is Conversion,
        e.text.len() > 0,
    ensures
        cancelled(e).0.state == (StateView::Composing {
            preedit: PreeditView::underlined(e.text, e.text.len() as int),
            romaji_buffer: Seq::empty(),
        }),
        cancelled(e).0.romaji == (RomajiView { output: e.text, pending: Seq::empty() }),
{
    let n = e.text.len() as int;
    assert(e.text.take(n) + Seq::<char>::empty() + e.text.skip(n) =~= e.text);
}

/// Committing what was typed right after going back from a conversion commits the
/// reading.
pub proof fn law_cancel_then_commit(e: EngineView)
    requires
        e.state is Conversion,
        e.text.len() > 0,
    ensures
        composing::flushed(cancelled(e).0).text == e.text,
{
    let f = cancelled(e).0;
    let r = f.romaji.flushed();
    assert(!(f.romaji.pending =~= seq!['n'])) by {
        assert(seq!['n'].len() == 1);
    }
    assert(r.output =~= e.text);
    assert(composing::emitted(f.romaji, r) =~= Seq::empty());
    let n = e.text.len() as int;
    assert(e.text.take(n) + Seq::<char>::empty() + e.text.skip(n) =~= e.text);
}

} // verus!
