//! Typing a reading.
use super::input_method::{EngineView, InputMethodEngine};
use super::preedit::{Preedit, PreeditView};
use super::state::{ActionView, EngineAction, EngineResult, InputMode, InputState, ResultView, StateView};
use crate::romaji::converter::RomajiView;
use crate::text;
use crate::text::{char_count, chars_of, text_of};
use vstd::prelude::*;

verus! {

/// The text with `t` inserted at the caret, and the caret behind it.
pub open spec fn inserted(e: EngineView, t: Seq<char>) -> EngineView {
    EngineView {
        text: e.text.take(e.cursor) + t + e.text.skip(e.cursor),
        cursor: e.cursor + t.len(),
        ..e
    }
}

/// The kana that the converter produced between two states.
pub open spec fn emitted(before: RomajiView, after: RomajiView) -> Seq<char> {
    after.output.skip(before.output.len() as int)
}

/// The engine with nothing left pending in the romaji converter.
pub open spec fn flushed(e: EngineView) -> EngineView {
    let r = e.romaji.flushed();
    inserted(EngineView { romaji: r, ..e }, emitted(e.romaji, r))
}

/// The engine after a character was typed: through the converter in hiragana mode, as
/// itself in the others.
pub open spec fn typed(e: EngineView, c: char) -> EngineView {
    if e.mode == InputMode::Hiragana {
        let r = e.romaji.pushed(c);
        inserted(EngineView { romaji: r, ..e }, emitted(e.romaji, r))
    } else {
        inserted(e, seq![c])
    }
}

/// The preedit while typing: the text with the pending letters at the caret.
pub open spec fn composing_preedit(e: EngineView) -> PreeditView {
    PreeditView::underlined(
        e.text.take(e.cursor) + e.romaji.pending + e.text.skip(e.cursor),
        e.cursor + e.romaji.pending.len(),
    )
}

/// The engine in the state of typing.
pub open spec fn composing(e: EngineView) -> EngineView {
    EngineView {
        state: StateView::Composing {
            preedit: composing_preedit(e),
            romaji_buffer: e.romaji.pending,
        },
        ..e
    }
}

/// The mode, as the auxiliary text shows it.
pub open spec fn mode_label(mode: InputMode) -> Seq<char> {
    match mode {
        InputMode::Hiragana => "[あ]"@,
        InputMode::Alphabet => "[A]"@,
        InputMode::Emoji => "[:]"@,
    }
}

/// What is reported while typing.
pub open spec fn composing_result(e: EngineView) -> ResultView {
    ResultView::consumed(
        seq![
            ActionView::UpdatePreedit(composing_preedit(e)),
            ActionView::UpdateAuxText(mode_label(e.mode)),
        ],
    )
}

/// An upper case letter leads from hiragana to alphabet mode.
pub open spec fn mode_for(mode: InputMode, c: char) -> InputMode {
    if mode == InputMode::Hiragana && text::is_ascii_upper(c) {
        InputMode::Alphabet
    } else {
        mode
    }
}

/// The engine after a new input was started with `c`.
pub open spec fn input_started(e: EngineView, c: char) -> EngineView {
    composing(
        typed(
            EngineView {
                text: Seq::empty(),
                cursor: 0,
                romaji: RomajiView::empty(),
                mode: mode_for(e.mode, c),
                ..e
            },
            c,
        ),
    )
}

/// The engine after `c` was typed into an input.
pub open spec fn input_continued(e: EngineView, c: char) -> EngineView {
    if mode_for(e.mode, c) != e.mode {
        composing(typed(EngineView { mode: mode_for(e.mode, c), ..flushed(e) }, c))
    } else {
        composing(typed(e, c))
    }
}

/// The engine after the text was committed as it is.
pub open spec fn text_committed(e: EngineView) -> EngineView {
    EngineView {
        text: Seq::empty(),
        cursor: 0,
        romaji: RomajiView::empty(),
        live: Seq::empty(),
        mode: InputMode::Hiragana,
        state: StateView::Empty,
        ..e
    }
}

/// What is reported when the text is committed as it is.
pub open spec fn text_committed_result(e: EngineView) -> ResultView {
    ResultView::consumed(
        seq![
            ActionView::UpdatePreedit(PreeditView::empty()),
            ActionView::HideAuxText,
            ActionView::Commit(e.text),
        ],
    )
}

impl InputMethodEngine {
    /// Inserts text at the caret.
    fn insert_text(&mut self, t: &str)
        requires
            0 <= old(self)@.cursor <= old(self)@.text.len(),
        ensures
            final(self)@ == inserted(old(self)@, t@),
    {
        let ghost start = self@;
        let chars = chars_of(self.input_buf.text.as_str());
        let (before, after) = chars.as_slice().split_at(self.input_buf.cursor_pos);
        let mut s = text_of(before);
        s.append(t);
        let cursor = char_count(s.as_str());
        s.append(text_of(after).as_str());
        assert(before@ =~= start.text.take(start.cursor));
        assert(after@ =~= start.text.skip(start.cursor));
        self.input_buf.text = s;
        self.input_buf.cursor_pos = cursor;
        assert(self@ =~= inserted(start, t@));
    }

    /// Moves what the converter has produced since its output had `before`
    /// characters into the text.
    fn take_emitted(&mut self, before: usize)
        requires
            0 <= old(self)@.cursor <= old(self)@.text.len(),
            before <= old(self)@.romaji.output.len(),
        ensures
            final(self)@ == inserted(old(self)@, old(self)@.romaji.output.skip(before as int)),
    {
        let out = chars_of(self.converters.romaji.output());
        let (_, new) = out.as_slice().split_at(before);
        assert(new@ =~= out@.skip(before as int));
        let t = text_of(new);
        self.insert_text(t.as_str());
    }

    /// Resolves the pending letters and moves the kana into the text.
    pub fn flush_romaji_to_composed(&mut self)
        requires
            0 <= old(self)@.cursor <= old(self)@.text.len(),
        ensures
            final(self)@ == flushed(old(self)@),
            0 <= final(self)@.cursor <= final(self)@.text.len(),
    {
        let before = char_count(self.converters.romaji.output());
        self.converters.romaji.flush();
        self.take_emitted(before);
    }

    /// Types a character into the text.
    fn type_char(&mut self, c: char)
        requires
            0 <= old(self)@.cursor <= old(self)@.text.len(),
        ensures
            final(self)@ == typed(old(self)@, c),
            0 <= final(self)@.cursor <= final(self)@.text.len(),
    {
        if self.input_mode == InputMode::Hiragana {
            let before = char_count(self.converters.romaji.output());
            proof {
                crate::romaji::converter::law_push_extends_output(self@.romaji, c);
            }
            self.converters.romaji.push(c);
            self.take_emitted(before);
        } else {
            let mut t = String::new();
            t.push(c);
            assert(t@ =~= seq![c]);
            self.insert_text(t.as_str());
        }
    }

    /// Enters the state of typing and returns the preedit.
    pub fn set_composing_state(&mut self) -> (r: Preedit)
        requires
            0 <= old(self)@.cursor <= old(self)@.text.len(),
        ensures
            final(self)@ == composing(old(self)@),
            r@ == composing_preedit(old(self)@),
    {
        let ghost start = self@;
        let chars = chars_of(self.input_buf.text.as_str());
        let (before, after) = chars.as_slice().split_at(self.input_buf.cursor_pos);
        let pending = self.converters.romaji.buffer();
        let mut s = text_of(before);
        s.append(pending.as_str());
        let caret = char_count(s.as_str());
        s.append(text_of(after).as_str());
        assert(before@ =~= start.text.take(start.cursor));
        assert(after@ =~= start.text.skip(start.cursor));
        let preedit = Preedit::underlined_at(s.as_str(), caret);
        self.state = InputState::Composing { preedit: preedit.clone(), romaji_buffer: pending };
        preedit
    }

    /// The auxiliary text while typing: the mode.
    pub fn format_aux_composing(&self) -> (r: String)
        ensures
            r@ == mode_label(self@.mode),
    {
        match self.input_mode {
            InputMode::Hiragana => "[あ]".to_owned(),
            InputMode::Alphabet => "[A]".to_owned(),
            InputMode::Emoji => "[:]".to_owned(),
        }
    }

    /// Enters the state of typing and reports it.
    fn report_composing(&mut self) -> (r: EngineResult)
        requires
            0 <= old(self)@.cursor <= old(self)@.text.len(),
        ensures
            final(self)@ == composing(old(self)@),
            r@ == composing_result(old(self)@),
    {
        let ghost start = self@;
        let preedit = self.set_composing_state();
        let aux = self.format_aux_composing();
        let r = EngineResult::consumed().with_action(
            EngineAction::UpdatePreedit(preedit),
        ).with_action(EngineAction::UpdateAuxText(aux));
        assert(r@ =~= composing_result(start));
        r
    }

    /// Starts a new input with `c`.
    pub fn start_input(&mut self, c: char) -> (r: EngineResult)
        ensures
            final(self)@ == input_started(old(self)@, c),
            r@ == composing_result(input_started(old(self)@, c)),
            0 <= final(self)@.cursor <= final(self)@.text.len(),
    {
        self.input_buf.text = String::new();
        self.input_buf.cursor_pos = 0;
        self.converters.romaji.reset();
        if self.input_mode == InputMode::Hiragana && 'A' <= c && c <= 'Z' {
            self.input_mode = InputMode::Alphabet;
        }
        self.type_char(c);
        self.report_composing()
    }

    /// Goes on with an input.
    pub fn continue_input(&mut self, c: char) -> (r: EngineResult)
        requires
            0 <= old(self)@.cursor <= old(self)@.text.len(),
        ensures
            final(self)@ == input_continued(old(self)@, c),
            r@ == composing_result(input_continued(old(self)@, c)),
            0 <= final(self)@.cursor <= final(self)@.text.len(),
    {
        if self.input_mode == InputMode::Hiragana && 'A' <= c && c <= 'Z' {
            self.flush_romaji_to_composed();
            self.input_mode = InputMode::Alphabet;
        }
        self.type_char(c);
        self.report_composing()
    }

    /// Commits what has been typed, as it is.
    pub fn commit_composing(&mut self) -> (r: EngineResult)
        requires
            0 <= old(self)@.cursor <= old(self)@.text.len(),
        ensures
            final(self)@ == text_committed(flushed(old(self)@)),
            r@ == text_committed_result(flushed(old(self)@)),
    {
        self.flush_romaji_to_composed();
        let ghost f = self@;
        let committed = self.input_buf.text.clone();
        self.input_buf.text = String::new();
        self.input_buf.cursor_pos = 0;
        self.converters.romaji.reset();
        self.live.text = String::new();
        self.input_mode = InputMode::Hiragana;
        self.state = InputState::Empty;
        let r = EngineResult::consumed().with_action(
            EngineAction::UpdatePreedit(Preedit::new()),
        ).with_action(EngineAction::HideAuxText).with_action(EngineAction::Commit(committed));
        assert(r@ =~= text_committed_result(f));
        r
    }
}

} // verus!
