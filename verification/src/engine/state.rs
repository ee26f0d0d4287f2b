//! The states of the engine and what it reports to the front end.
use super::candidate::{CandidateList, ListView};
use super::preedit::{Preedit, PreeditView};
use vstd::prelude::*;

verus! {

/// What typed characters become.
#[derive(Debug, Clone, Copy, PartialEq, Eq, Structural)]
pub enum InputMode {
    /// Romaji becomes hiragana.
    Hiragana,
    /// Characters stand for themselves.
    Alphabet,
    /// A shortcode for an emoji is typed.
    Emoji,
}

/// What the engine is doing.
#[derive(Debug)]
pub enum InputState {
    /// Nothing has been typed.
    Empty,
    /// A reading is being typed.
    Composing { preedit: Preedit, romaji_buffer: String },
    /// A conversion is being chosen.
    Conversion { preedit: Preedit, candidates: CandidateList },
}

#[verifier::ext_equal]
pub enum StateView {
    Empty,
    Composing { preedit: PreeditView, romaji_buffer: Seq<char> },
    Conversion { preedit: PreeditView, candidates: ListView },
}

impl View for InputState {
    type V = StateView;

    open spec fn view(&self) -> StateView {
        match self {
            InputState::Empty => StateView::Empty,
            InputState::Composing { preedit, romaji_buffer } => StateView::Composing {
                preedit: preedit@,
                romaji_buffer: romaji_buffer@,
            },
            InputState::Conversion { preedit, candidates } => StateView::Conversion {
                preedit: preedit@,
                candidates: candidates@,
            },
        }
    }
}

impl Clone for InputState {
    fn clone(&self) -> (r: Self)
        ensures
            r@ == self@,
    {
        match self {
            InputState::Empty => InputState::Empty,
            InputState::Composing { preedit, romaji_buffer } => InputState::Composing {
                preedit: preedit.clone(),
                romaji_buffer: romaji_buffer.clone(),
            },
            InputState::Conversion { preedit, candidates } => InputState::Conversion {
                preedit: preedit.clone(),
                candidates: candidates.clone(),
            },
        }
    }
}

/// A part of the input that is converted on its own.
#[derive(Debug)]
pub struct ConversionSegment {
    pub reading: String,
    pub candidates: CandidateList,
}

#[verifier::ext_equal]
pub struct SegmentView {
    pub reading: Seq<char>,
    pub candidates: ListView,
}

impl SegmentView {
    /// The text that the segment stands for at the moment.
    pub open spec fn text(self) -> Seq<char> {
        self.candidates.text_or(self.reading)
    }

    /// The reading that this text converts.
    pub open spec fn source_reading(self) -> Seq<char> {
        self.candidates.reading_or(self.reading)
    }
}

impl View for ConversionSegment {
    type V = SegmentView;

    open spec fn view(&self) -> SegmentView {
        SegmentView { reading: self.reading@, candidates: self.candidates@ }
    }
}

impl Clone for ConversionSegment {
    fn clone(&self) -> (r: Self)
        ensures
            r@ == self@,
    {
        ConversionSegment { reading: self.reading.clone(), candidates: self.candidates.clone() }
    }
}

pub open spec fn segment_views(v: Seq<ConversionSegment>) -> Seq<SegmentView> {
    v.map_values(|s: ConversionSegment| s@)
}

impl ConversionSegment {
    /// The text that the segment stands for: that of the selected candidate, or the
    /// reading.
    pub fn text(&self) -> (r: String)
        ensures
            r@ == self@.text(),
    {
        match self.candidates.selected_text() {
            Some(t) => t.to_owned(),
            None => self.reading.clone(),
        }
    }

    /// The reading that the text converts: that of the selected candidate, or the
    /// segment's own.
    pub fn source_reading(&self) -> (r: String)
        ensures
            r@ == self@.source_reading(),
    {
        match self.candidates.selected() {
            Some(c) => match &c.reading {
                Some(own) => own.clone(),
                None => self.reading.clone(),
            },
            None => self.reading.clone(),
        }
    }
}

/// What the front end is to do.
#[derive(Debug)]
pub enum EngineAction {
    UpdatePreedit(Preedit),
    ShowCandidates(CandidateList),
    HideCandidates,
    UpdateAuxText(String),
    HideAuxText,
    Commit(String),
}

#[verifier::ext_equal]
pub enum ActionView {
    UpdatePreedit(PreeditView),
    ShowCandidates(ListView),
    HideCandidates,
    UpdateAuxText(Seq<char>),
    HideAuxText,
    Commit(Seq<char>),
}

impl View for EngineAction {
    type V = ActionView;

    open spec fn view(&self) -> ActionView {
        match self {
            EngineAction::UpdatePreedit(p) => ActionView::UpdatePreedit(p@),
            EngineAction::ShowCandidates(c) => ActionView::ShowCandidates(c@),
            EngineAction::HideCandidates => ActionView::HideCandidates,
            EngineAction::UpdateAuxText(t) => ActionView::UpdateAuxText(t@),
            EngineAction::HideAuxText => ActionView::HideAuxText,
            EngineAction::Commit(t) => ActionView::Commit(t@),
        }
    }
}

pub open spec fn action_views(v: Seq<EngineAction>) -> Seq<ActionView> {
    v.map_values(|a: EngineAction| a@)
}

/// The outcome of a key: whether the engine took it, and what follows.
#[derive(Debug)]
pub struct EngineResult {
    pub consumed: bool,
    pub actions: Vec<EngineAction>,
}

#[verifier::ext_equal]
pub struct ResultView {
    pub consumed: bool,
    pub actions: Seq<ActionView>,
}

impl ResultView {
    /// The key was taken, with these actions.
    pub open spec fn consumed(actions: Seq<ActionView>) -> ResultView {
        ResultView { consumed: true, actions }
    }

    /// The key was not taken.
    pub open spec fn not_consumed() -> ResultView {
        ResultView { consumed: false, actions: Seq::empty() }
    }
}

impl View for EngineResult {
    type V = ResultView;

    open spec fn view(&self) -> ResultView {
        ResultView { consumed: self.consumed, actions: action_views(self.actions@) }
    }
}

impl EngineResult {
    pub fn consumed() -> (r: Self)
        ensures
            r@ == ResultView::consumed(Seq::empty()),
    {
        let r = EngineResult { consumed: true, actions: Vec::new() };
        assert(r@ =~= ResultView::consumed(Seq::empty()));
        r
    }

    pub fn not_consumed() -> (r: Self)
        ensures
            r@ == ResultView::not_consumed(),
    {
        let r = EngineResult { consumed: false, actions: Vec::new() };
        assert(r@ =~= ResultView::not_consumed());
        r
    }

    /// This result with one more action.
    pub fn with_action(self, action: EngineAction) -> (r: Self)
        ensures
            r@ == (ResultView { consumed: self@.consumed, actions: self@.actions.push(action@) }),
    {
        let ghost before = self.actions@;
        let mut actions = self.actions;
        actions.push(action);
        assert(action_views(actions@) =~= action_views(before).push(action@));
        EngineResult { consumed: self.consumed, actions }
    }

    /// This result with the actions of another behind its own.
    pub fn with_actions_of(self, other: EngineResult) -> (r: Self)
        ensures
            r@ == (ResultView {
                consumed: self@.consumed,
                actions: self@.actions + other@.actions,
            }),
    {
        let ghost before = self.actions@;
        let mut actions = self.actions;
        let mut rest = other.actions;
        actions.append(&mut rest);
        assert(action_views(actions@) =~= action_views(before) + other@.actions);
        EngineResult { consumed: self.consumed, actions }
    }
}

} // verus!
