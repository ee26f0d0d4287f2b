//! What each key does.
use super::candidate::{CandidateList, ListView};
use super::clock::elapsed_ms;
use super::commit;
use super::composing;
use super::conversion;
use super::input_method::{EngineView, InputMethodEngine, ModelRunView};
use super::keys;
use super::keys::{KeyEvent, Keysym};
use super::segments;
use super::state;
use super::state::{
    ActionView, ConversionSegment, EngineAction, EngineResult, InputMode, InputState, ResultView,
    SegmentView, StateView,
};
use std::time::Instant;
use vstd::prelude::*;

verus! {

/// A step through a list of candidates.
#[derive(Debug, Clone, Copy, PartialEq, Eq, Structural)]
pub enum CandidateStep {
    Next,
    Prev,
    NextPage,
    PrevPage,
}

/// The list after a step.
pub open spec fn stepped(l: ListView, step: CandidateStep) -> ListView {
    match step {
        CandidateStep::Next => l.next(),
        CandidateStep::Prev => l.prev(),
        CandidateStep::NextPage => l.page_down(),
        CandidateStep::PrevPage => l.page_up(),
    }
}

/// The engine with another list in the current segment.
pub open spec fn with_list(e: EngineView, l: ListView) -> EngineView {
    EngineView {
        segments: e.segments.update(
            e.current,
            SegmentView { reading: e.segments[e.current].reading, candidates: l },
        ),
        ..e
    }
}

/// A step through the candidates of the current segment, and what is reported.
pub open spec fn navigated(e: EngineView, step: CandidateStep) -> (EngineView, ResultView) {
    match e.state {
        StateView::Conversion { preedit, candidates } => {
            let f = with_list(e, stepped(candidates, step));
            (segments::segments_applied(f), segments::segments_result(f))
        },
        _ => (e, ResultView::not_consumed()),
    }
}

/// Selecting the candidate under a number of the current page and committing all
/// segments, and what is reported. Without such a candidate nothing changes.
pub open spec fn digit_selected(e: EngineView, digit: int) -> (EngineView, ResultView) {
    match e.state {
        StateView::Conversion { preedit, candidates } => {
            if candidates.on_page(digit) {
                commit::conversion_committed(with_list(e, candidates.picked(digit)))
            } else {
                (e, ResultView::consumed(Seq::empty()))
            }
        },
        _ => (e, ResultView::not_consumed()),
    }
}

/// The key is held down with neither Ctrl nor Alt.
pub open spec fn bare(key: KeyEvent) -> bool {
    !key.modifiers.control_key && !key.modifiers.alt_key
}

/// The letter key `lower`, in either case.
pub open spec fn letter_key(k: Keysym, lower: char, upper: char) -> bool {
    k == Keysym::Character(lower) || k == Keysym::Character(upper)
}

/// A key in a conversion.
pub open spec fn conversion_key(e: EngineView, key: KeyEvent) -> (EngineView, ResultView) {
    match key.keysym {
        Keysym::RETURN => commit::conversion_committed(e),
        Keysym::ESCAPE | Keysym::BACKSPACE => commit::cancelled(e),
        Keysym::SPACE | Keysym::DOWN | Keysym::TAB => navigated(e, CandidateStep::Next),
        Keysym::UP => navigated(e, CandidateStep::Prev),
        Keysym::PAGE_DOWN => navigated(e, CandidateStep::NextPage),
        Keysym::PAGE_UP => navigated(e, CandidateStep::PrevPage),
        Keysym::LEFT => if key.modifiers.shift_key {
            segments::shrunk(e)
        } else {
            segments::moved_left(e)
        },
        Keysym::RIGHT => if key.modifiers.shift_key {
            segments::expanded(e)
        } else {
            segments::moved_right(e)
        },
        _ => {
            let with_control = key.modifiers.control_key && !key.modifiers.alt_key;
            if with_control && letter_key(key.keysym, 'n', 'N') {
                navigated(e, CandidateStep::Next)
            } else if with_control && letter_key(key.keysym, 'p', 'P') {
                navigated(e, CandidateStep::Prev)
            } else if let Some(digit) = keys::digit_of(key.keysym) {
                digit_selected(e, digit as int)
            } else if let (Some(c), true) = (keys::typed_by(key.keysym), bare(key)) {
                commit::committed_and_continued(e, c)
            } else {
                (e, ResultView::not_consumed())
            }
        },
    }
}

/// A key while nothing is being typed.
pub open spec fn empty_key(e: EngineView, key: KeyEvent) -> (EngineView, ResultView) {
    match key.keysym {
        Keysym::SPACE => if bare(key) && key.modifiers.shift_key {
            (e, ResultView::consumed(seq![ActionView::Commit(" "@)]))
        } else {
            (e, ResultView::not_consumed())
        },
        Keysym::Character(c) => if bare(key) {
            let next = composing::input_started(e, c);
            (next, composing::composing_result(next))
        } else {
            (e, ResultView::not_consumed())
        },
        _ => (e, ResultView::not_consumed()),
    }
}

/// A key while a reading is being typed.
pub open spec fn composing_key(e: EngineView, key: KeyEvent) -> (EngineView, ResultView) {
    match key.keysym {
        Keysym::RETURN => {
            let f = composing::flushed(e);
            (composing::text_committed(f), composing::text_committed_result(f))
        },
        Keysym::SPACE => if e.mode == InputMode::Alphabet {
            let next = composing::input_continued(e, ' ');
            (next, composing::composing_result(next))
        } else {
            conversion::started(e, false)
        },
        Keysym::DOWN => conversion::started(e, false),
        Keysym::TAB => conversion::started(e, true),
        Keysym::Character(c) => if bare(key) {
            let next = composing::input_continued(e, c);
            (next, composing::composing_result(next))
        } else {
            (e, ResultView::not_consumed())
        },
        _ => (e, ResultView::not_consumed()),
    }
}

/// The engine when a key arrives: no model has been asked for it.
pub open spec fn key_begun(e: EngineView) -> EngineView {
    EngineView { model: ModelRunView { conversion_ms: 0, wanted: false, ..e.model }, ..e }
}

/// The engine after a key, but for the time that it took, and what is reported.
pub open spec fn key_processed(e: EngineView, key: KeyEvent) -> (EngineView, ResultView) {
    let f = key_begun(e);
    match e.state {
        StateView::Empty => empty_key(f, key),
        StateView::Composing { .. } => composing_key(f, key),
        StateView::Conversion { .. } => conversion_key(f, key),
    }
}

impl InputMethodEngine {
    /// Puts another list into the current segment.
    fn set_current_list(&mut self, list: CandidateList)
        requires
            0 <= old(self)@.current < old(self)@.segments.len(),
        ensures
            final(self)@ == with_list(old(self)@, list@),
    {
        let ghost start = self@;
        let ghost before = self.segments@;
        assert(before[start.current]@ == start.segments[start.current]);
        let reading = self.segments[self.current_segment].reading.clone();
        let segment = ConversionSegment { reading, candidates: list };
        self.segments.set(self.current_segment, segment);
        assert(state::segment_views(self.segments@) =~= state::segment_views(before).update(
            start.current,
            segment@,
        ));
        assert(self@ =~= with_list(start, list@));
    }

    /// Takes a step through the candidates of the current segment.
    pub fn navigate_candidate(&mut self, step: CandidateStep) -> (r: EngineResult)
        requires
            old(self)@.wf(),
        ensures
            final(self)@ == navigated(old(self)@, step).0,
            r@ == navigated(old(self)@, step).1,
    {
        let mut list = match &self.state {
            InputState::Conversion { candidates, .. } => candidates.clone(),
            _ => {
                return EngineResult::not_consumed();
            },
        };
        let ghost before = list@;
        let _ = match step {
            CandidateStep::Next => list.move_next(),
            CandidateStep::Prev => list.move_prev(),
            CandidateStep::NextPage => list.next_page(),
            CandidateStep::PrevPage => list.prev_page(),
        };
        proof {
            super::candidate::law_navigation_keeps_wf(before, 1);
        }
        self.set_current_list(list);
        self.apply_segment_state()
    }

    /// Selects the next candidate.
    pub fn next_candidate(&mut self) -> (r: EngineResult)
        requires
            old(self)@.wf(),
        ensures
            final(self)@ == navigated(old(self)@, CandidateStep::Next).0,
            r@ == navigated(old(self)@, CandidateStep::Next).1,
    {
        self.navigate_candidate(CandidateStep::Next)
    }

    /// Selects the previous candidate.
    pub fn prev_candidate(&mut self) -> (r: EngineResult)
        requires
            old(self)@.wf(),
        ensures
            final(self)@ == navigated(old(self)@, CandidateStep::Prev).0,
            r@ == navigated(old(self)@, CandidateStep::Prev).1,
    {
        self.navigate_candidate(CandidateStep::Prev)
    }

    /// Goes to the next page of candidates.
    pub fn next_candidate_page(&mut self) -> (r: EngineResult)
        requires
            old(self)@.wf(),
        ensures
            final(self)@ == navigated(old(self)@, CandidateStep::NextPage).0,
            r@ == navigated(old(self)@, CandidateStep::NextPage).1,
    {
        self.navigate_candidate(CandidateStep::NextPage)
    }

    /// Goes to the previous page of candidates.
    pub fn prev_candidate_page(&mut self) -> (r: EngineResult)
        requires
            old(self)@.wf(),
        ensures
            final(self)@ == navigated(old(self)@, CandidateStep::PrevPage).0,
            r@ == navigated(old(self)@, CandidateStep::PrevPage).1,
    {
        self.navigate_candidate(CandidateStep::PrevPage)
    }

    /// Selects the candidate under the number `digit` of the current page, counted
    /// from 1, and commits all segments.
    pub fn select_candidate_by_digit(&mut self, digit: usize) -> (r: EngineResult)
        requires
            old(self)@.wf(),
        ensures
            final(self)@ == digit_selected(old(self)@, digit as int).0,
            r@ == digit_selected(old(self)@, digit as int).1,
    {
        let mut list = match &self.state {
            InputState::Conversion { candidates, .. } => candidates.clone(),
            _ => {
                return EngineResult::not_consumed();
            },
        };
        if list.select_on_page(digit).is_none() {
            return EngineResult::consumed();
        }
        self.set_current_list(list);
        self.commit_conversion()
    }

    /// Selects the candidate at `page_index` of the current page, counted from 0, and
    /// commits all segments, like the digit key `page_index + 1`. Not consumed unless
    /// a conversion is being chosen.
    pub fn select_candidate_on_page(&mut self, page_index: usize) -> (r: EngineResult)
        requires
            old(self)@.wf(),
            page_index < usize::MAX,
        ensures
            final(self)@ == (EngineView {
                key_ms: final(self)@.key_ms,
                ..digit_selected(key_begun(old(self)@), page_index + 1).0
            }),
            r@ == digit_selected(key_begun(old(self)@), page_index + 1).1,
            r@.consumed <==> old(self)@.state is Conversion,
            final(self)@.wf(),
    {
        let start = Instant::now();
        self.metrics.conversion_ms = 0;
        self.model_wanted = false;
        let result = self.select_candidate_by_digit(page_index + 1);
        self.metrics.process_key_ms = elapsed_ms(&start);
        result
    }

    /// A key in a conversion.
    pub fn process_key_conversion(&mut self, key: &KeyEvent) -> (r: EngineResult)
        requires
            old(self)@.wf(),
        ensures
            final(self)@ == conversion_key(old(self)@, *key).0,
            r@ == conversion_key(old(self)@, *key).1,
    {
        match key.keysym {
            Keysym::RETURN => self.commit_conversion(),
            Keysym::ESCAPE => self.cancel_conversion(),
            Keysym::SPACE | Keysym::DOWN | Keysym::TAB => self.next_candidate(),
            Keysym::UP => self.prev_candidate(),
            Keysym::PAGE_DOWN => self.next_candidate_page(),
            Keysym::PAGE_UP => self.prev_candidate_page(),
            Keysym::BACKSPACE => self.backspace_conversion(),
            Keysym::LEFT => {
                if key.modifiers.shift_key {
                    self.shrink_segment()
                } else {
                    self.move_segment_left()
                }
            },
            Keysym::RIGHT => {
                if key.modifiers.shift_key {
                    self.expand_segment()
                } else {
                    self.move_segment_right()
                }
            },
            _ => {
                if key.modifiers.control_key && !key.modifiers.alt_key {
                    match key.keysym {
                        Keysym::Character('n') | Keysym::Character('N') => {
                            return self.next_candidate();
                        },
                        Keysym::Character('p') | Keysym::Character('P') => {
                            return self.prev_candidate();
                        },
                        _ => {},
                    }
                }
                if let Some(digit) = key.keysym.digit_value() {
                    return self.select_candidate_by_digit(digit);
                }
                if let Some(c) = key.to_char() {
                    if !key.modifiers.control_key && !key.modifiers.alt_key {
                        return self.commit_conversion_and_continue(c);
                    }
                }
                EngineResult::not_consumed()
            },
        }
    }

    /// A key while nothing is being typed.
    pub fn process_key_empty(&mut self, key: &KeyEvent) -> (r: EngineResult)
        ensures
            final(self)@ == empty_key(old(self)@, *key).0,
            r@ == empty_key(old(self)@, *key).1,
    {
        if key.modifiers.control_key || key.modifiers.alt_key {
            return EngineResult::not_consumed();
        }
        match key.keysym {
            Keysym::SPACE => {
                if key.modifiers.shift_key {
                    let r = EngineResult::consumed().with_action(
                        EngineAction::Commit(" ".to_owned()),
                    );
                    assert(r@ =~= ResultView::consumed(seq![ActionView::Commit(" "@)]));
                    r
                } else {
                    EngineResult::not_consumed()
                }
            },
            Keysym::Character(c) => self.start_input(c),
            _ => EngineResult::not_consumed(),
        }
    }

    /// A key while a reading is being typed.
    pub fn process_key_composing(&mut self, key: &KeyEvent) -> (r: EngineResult)
        requires
            0 <= old(self)@.cursor <= old(self)@.text.len(),
        ensures
            final(self)@ == composing_key(old(self)@, *key).0,
            r@ == composing_key(old(self)@, *key).1,
    {
        match key.keysym {
            Keysym::RETURN => self.commit_composing(),
            Keysym::SPACE => {
                if self.input_mode == InputMode::Alphabet {
                    self.continue_input(' ')
                } else {
                    self.start_conversion(false)
                }
            },
            Keysym::DOWN => self.start_conversion(false),
            Keysym::TAB => self.start_conversion(true),
            Keysym::Character(c) => {
                if !key.modifiers.control_key && !key.modifiers.alt_key {
                    self.continue_input(c)
                } else {
                    EngineResult::not_consumed()
                }
            },
            _ => EngineResult::not_consumed(),
        }
    }

    /// Processes a key. How long that took is left to the clock; all else is as the key
    /// has it.
    pub fn process_key(&mut self, key: &KeyEvent) -> (r: EngineResult)
        requires
            old(self)@.wf(),
        ensures
            final(self)@ == (EngineView {
                key_ms: final(self)@.key_ms,
                ..key_processed(old(self)@, *key).0
            }),
            r@ == key_processed(old(self)@, *key).1,
            final(self)@.wf(),
    {
        let ghost before = self@;
        let start = Instant::now();
        self.metrics.conversion_ms = 0;
        self.model_wanted = false;
        let state = match &self.state {
            InputState::Empty => 0u8,
            InputState::Composing { .. } => 1u8,
            InputState::Conversion { .. } => 2u8,
        };
        let result = if state == 0 {
            self.process_key_empty(key)
        } else if state == 1 {
            self.process_key_composing(key)
        } else {
            self.process_key_conversion(key)
        };
        self.metrics.process_key_ms = elapsed_ms(&start);
        proof {
            law_keys_keep_wf(before, *key);
        }
        result
    }
}

proof fn lemma_navigated_wf(e: EngineView, step: CandidateStep)
    requires
        e.wf(),
    ensures
        navigated(e, step).0.wf(),
{
    if let StateView::Conversion { preedit, candidates } = e.state {
        super::candidate::law_navigation_keeps_wf(candidates, 1);
    }
}

proof fn lemma_digit_wf(e: EngineView, digit: int)
    requires
        e.wf(),
    ensures
        digit_selected(e, digit).0.wf(),
{
}

proof fn lemma_empty_key_wf(e: EngineView, key: KeyEvent)
    requires
        e.wf(),
        e.state is Empty,
    ensures
        empty_key(e, key).0.wf(),
{
}

proof fn lemma_composing_key_wf(e: EngineView, key: KeyEvent)
    requires
        e.wf(),
        e.state is Composing,
    ensures
        composing_key(e, key).0.wf(),
{
    conversion::lemma_started_wf(e, false);
    conversion::lemma_started_wf(e, true);
}

proof fn lemma_conversion_key_wf(e: EngineView, key: KeyEvent)
    requires
        e.wf(),
        e.state is Conversion,
    ensures
        conversion_key(e, key).0.wf(),
{
    lemma_navigated_wf(e, CandidateStep::Next);
    lemma_navigated_wf(e, CandidateStep::Prev);
    lemma_navigated_wf(e, CandidateStep::NextPage);
    lemma_navigated_wf(e, CandidateStep::PrevPage);
    segments::lemma_segments_wf(e);
    if let Some(digit) = keys::digit_of(key.keysym) {
        lemma_digit_wf(e, digit as int);
    }
    commit::lemma_commit_wf(e);
    if let Some(c) = keys::typed_by(key.keysym) {
        commit::lemma_continue_wf(e, c);
    }
}

/// Whatever the key, the engine stays well formed: the caret is in the text, and a
/// conversion shows the candidates of a segment that is there.
pub proof fn law_keys_keep_wf(e: EngineView, key: KeyEvent)
    requires
        e.wf(),
    ensures
        key_processed(e, key).0.wf(),
{
    let f = key_begun(e);
    assert(f.wf());
    if e.state is Empty {
        lemma_empty_key_wf(f, key);
    } else if e.state is Composing {
        lemma_composing_key_wf(f, key);
    } else {
        lemma_conversion_key_wf(f, key);
    }
}

/// Selecting a place on the page does what the digit key with its number does, with
/// whatever else is held down.
pub proof fn law_place_on_page_is_digit_key(e: EngineView, key: KeyEvent)
    requires
        e.state is Conversion,
        keys::digit_of(key.keysym) is Some,
    ensures
        key_processed(e, key) == digit_selected(
            key_begun(e),
            keys::digit_of(key.keysym)->0 as int,
        ),
{
}

/// The keys that take a step through the candidates change the selection and nothing
/// else of the segments, commit nothing and learn nothing.
pub proof fn law_steps_only_select(e: EngineView, step: CandidateStep)
    requires
        e.wf(),
        e.state is Conversion,
    ensures
        segments::readings(navigated(e, step).0.segments) == segments::readings(e.segments),
        navigated(e, step).0.text == e.text,
        navigated(e, step).0.learning == e.learning,
        navigated(e, step).0.current == e.current,
        navigated(e, step).0.segments[e.current].candidates.candidates
            == e.segments[e.current].candidates.candidates,
        forall|i: int|
            0 <= i < e.segments.len() && i != e.current ==> (#[trigger] navigated(
                e,
                step,
            ).0.segments[i]) == e.segments[i],
{
    assert(segments::readings(navigated(e, step).0.segments) =~= segments::readings(e.segments));
}

/// Going to the next candidate and back leaves the engine as it was.
pub proof fn law_next_and_back(e: EngineView)
    requires
        e.wf(),
        segments::in_step(e),
        e.state is Conversion,
    ensures
        navigated(navigated(e, CandidateStep::Next).0, CandidateStep::Prev).0 == e,
        navigated(navigated(e, CandidateStep::Prev).0, CandidateStep::Next).0 == e,
{
    let l = e.segments[e.current].candidates;
    super::candidate::law_next_prev(l);
    let there = navigated(e, CandidateStep::Next).0;
    let back = with_list(there, l);
    assert(back.segments =~= e.segments);
    assert(navigated(there, CandidateStep::Prev).0 =~= segments::segments_applied(e));
    let other = navigated(e, CandidateStep::Prev).0;
    assert(with_list(other, l).segments =~= e.segments);
    assert(navigated(other, CandidateStep::Next).0 =~= segments::segments_applied(e));
}

proof fn lemma_navigated_in_step(e: EngineView, step: CandidateStep)
    requires
        e.wf(),
        segments::in_step(e),
    ensures
        segments::in_step(navigated(e, step).0),
{
    if let StateView::Conversion { preedit, candidates } = e.state {
        let f = navigated(e, step).0;
        segments::lemma_spelled_same(e.segments, f.segments);
    }
}

proof fn lemma_conversion_key_in_step(e: EngineView, key: KeyEvent)
    requires
        e.wf(),
        segments::in_step(e),
        e.state is Conversion,
    ensures
        segments::in_step(conversion_key(e, key).0),
{
    lemma_navigated_in_step(e, CandidateStep::Next);
    lemma_navigated_in_step(e, CandidateStep::Prev);
    lemma_navigated_in_step(e, CandidateStep::NextPage);
    lemma_navigated_in_step(e, CandidateStep::PrevPage);
    segments::law_shrink_keeps_text(e);
    segments::law_expand_keeps_text(e);
    segments::lemma_applied_twice(e);
    assert(segments::in_step(segments::shrunk(e).0));
    assert(segments::in_step(segments::expanded(e).0));
    assert(segments::in_step(segments::moved_left(e).0));
    assert(segments::in_step(segments::moved_right(e).0));
    assert(segments::in_step(commit::cancelled(e).0));
    assert(segments::in_step(commit::conversion_committed(e).0));
    if let Some(digit) = keys::digit_of(key.keysym) {
        assert(segments::in_step(digit_selected(e, digit as int).0));
    }
    if let Some(c) = keys::typed_by(key.keysym) {
        assert(segments::in_step(commit::committed_and_continued(e, c).0));
    }
}

/// Whatever the key, in a conversion the segments divide up the text that was typed,
/// and the state is the one that they give.
pub proof fn law_keys_keep_in_step(e: EngineView, key: KeyEvent)
    requires
        e.wf(),
        segments::in_step(e),
    ensures
        segments::in_step(key_processed(e, key).0),
{
    let f = key_begun(e);
    assert(segments::in_step(f)) by {
        if e.state is Conversion {
            assert(segments::segments_applied(f) =~= f) by {
                assert(segments::segments_applied(e).state == e.state);
            }
        }
    }
    if e.state is Conversion {
        lemma_conversion_key_in_step(f, key);
    } else if e.state is Composing {
        conversion::lemma_started_in_step(f, false);
        conversion::lemma_started_in_step(f, true);
    }
}

/// The front end is told to commit something.
pub open spec fn commits(r: ResultView) -> bool {
    exists|i: int| 0 <= i < r.actions.len() && (#[trigger] r.actions[i]) is Commit
}

proof fn lemma_conversion_key_frame(e: EngineView, key: KeyEvent)
    requires
        e.wf(),
        e.state is Conversion,
    ensures
        conversion_key(e, key).0.sources == e.sources,
        !conversion_key(e, key).1.consumed ==> conversion_key(e, key).0 == e,
        conversion_key(e, key).0.learning == e.learning || commits(conversion_key(e, key).1),
{
    let r = commit::conversion_committed(e);
    assert(r.1.actions[3] is Commit);
    if let Some(digit) = keys::digit_of(key.keysym) {
        let l = e.segments[e.current].candidates;
        let d = digit_selected(e, digit as int);
        if l.on_page(digit as int) {
            assert(d.1.actions[3] is Commit);
        }
        assert(d.0.learning == e.learning || commits(d.1));
        assert(d.0.sources == e.sources);
    }
    if let Some(c) = keys::typed_by(key.keysym) {
        let d = commit::committed_and_continued(e, c);
        assert(d.1.actions[0] is Commit);
        assert(d.0.sources == e.sources);
    }
}

/// A key that is not consumed changes nothing.
pub proof fn law_not_consumed_not_changed(e: EngineView, key: KeyEvent)
    requires
        e.wf(),
        !key_processed(e, key).1.consumed,
    ensures
        key_processed(e, key).0 == key_begun(e),
{
    if e.state is Conversion {
        lemma_conversion_key_frame(key_begun(e), key);
    }
}

/// No key changes the settings, the dictionaries, the models or the tables.
pub proof fn law_keys_keep_sources(e: EngineView, key: KeyEvent)
    requires
        e.wf(),
    ensures
        key_processed(e, key).0.sources == e.sources,
{
    if e.state is Conversion {
        lemma_conversion_key_frame(key_begun(e), key);
    }
}

/// The learning cache changes only with a key that commits something.
pub proof fn law_only_commits_are_learned(e: EngineView, key: KeyEvent)
    requires
        e.wf(),
        key_processed(e, key).0.learning != e.learning,
    ensures
        e.state is Conversion,
        commits(key_processed(e, key).1),
{
    if e.state is Conversion {
        lemma_conversion_key_frame(key_begun(e), key);
    }
}

} // verus!
