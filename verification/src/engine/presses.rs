//! What each key leads to, said over the candidates and the texts themselves.
use super::borders;
use super::candidate::ListView;
use super::commit;
use super::composing;
use super::conversion;
use super::endings;
use super::input_method;
use super::input_method::{EngineConfig, EngineView, ModelRunView};
use super::keyboard;
use super::keys::{KeyEvent, KeyModifiers, Keysym};
use super::preedit::PreeditView;
use super::segments;
use super::state::{ActionView, InputMode, ResultView, SegmentView, StateView};
use crate::romaji::converter::RomajiView;
use vstd::prelude::*;

verus! {

/// The engine before a key does anything: the time and the want of a model that the last
/// key left behind are forgotten.
pub open spec fn at_key(e: EngineView) -> EngineView {
    EngineView {
        model: ModelRunView {
            name: e.model.name,
            conversion_ms: 0,
            use_light: e.model.use_light,
            requests: e.model.requests,
            wanted: false,
        },
        ..e
    }
}

/// The place of the selected candidate after a key that walks through the list, nine to a
/// page: the next one and the one before go round, the pages do not.
pub open spec fn place_after(l: ListView, k: Keysym) -> int {
    let n = l.candidates.len() as int;
    match k {
        Keysym::UP => if l.cursor == 0 {
            n - 1
        } else {
            l.cursor - 1
        },
        Keysym::PAGE_DOWN => if (l.cursor / 9 + 1) * 9 < n {
            (l.cursor / 9 + 1) * 9
        } else {
            l.cursor
        },
        Keysym::PAGE_UP => if l.cursor < 9 {
            l.cursor
        } else {
            (l.cursor / 9 - 1) * 9
        },
        _ => if l.cursor + 1 == n {
            0
        } else {
            l.cursor + 1
        },
    }
}

/// The key walks through the candidates.
pub open spec fn walks(k: Keysym) -> bool {
    k == Keysym::SPACE || k == Keysym::DOWN || k == Keysym::TAB || k == Keysym::UP || k
        == Keysym::PAGE_DOWN || k == Keysym::PAGE_UP
}

/// The key that does the same as Ctrl with a letter.
pub open spec fn stands_for(key: KeyEvent) -> Keysym {
    let with_control = key.modifiers.control_key && !key.modifiers.alt_key;
    match key.keysym {
        Keysym::Character(c) => if with_control && (c == 'n' || c == 'N') {
            Keysym::DOWN
        } else if with_control && (c == 'p' || c == 'P') {
            Keysym::UP
        } else {
            key.keysym
        },
        _ => key.keysym,
    }
}

/// The engine with the candidate at `place` selected in the current segment.
pub open spec fn selecting(e: EngineView, place: int) -> Seq<SegmentView> {
    let s = e.segments[e.current];
    e.segments.update(
        e.current,
        SegmentView {
            reading: s.reading,
            candidates: ListView { candidates: s.candidates.candidates, cursor: place },
        },
    )
}

/// Space, Down, Tab, Up, the page keys, and Ctrl with `n` or `p` select another candidate
/// of the current segment and show it; nothing else changes.
pub proof fn law_keys_select(e: EngineView, key: KeyEvent)
    requires
        e.wf(),
        e.state is Conversion,
        e.segments[e.current].candidates.candidates.len() > 0,
        walks(stands_for(key)),
    ensures
        ({
            let (f, r) = keyboard::key_processed(e, key);
            let l = e.segments[e.current].candidates;
            &&& f == EngineView {
                segments: selecting(e, place_after(l, stands_for(key))),
                state: f.state,
                ..at_key(e)
            }
            &&& borders::shows_segments(f)
            &&& borders::reports_state(r, f)
        }),
{
    let g = keyboard::key_begun(e);
    let l = e.segments[e.current].candidates;
    let k = stands_for(key);
    let step = match k {
        Keysym::UP => keyboard::CandidateStep::Prev,
        Keysym::PAGE_DOWN => keyboard::CandidateStep::NextPage,
        Keysym::PAGE_UP => keyboard::CandidateStep::PrevPage,
        _ => keyboard::CandidateStep::Next,
    };
    assert(keyboard::key_processed(e, key) == keyboard::navigated(g, step));
    assert(l.cursor - l.cursor % 9 == (l.cursor / 9) * 9);
    let next = keyboard::stepped(l, step);
    assert(next =~= (ListView { candidates: l.candidates, cursor: place_after(l, k) }));
    let h = keyboard::with_list(g, next);
    borders::lemma_shows(h);
    let f = keyboard::key_processed(e, key).0;
    assert(h.segments =~= selecting(e, place_after(l, k)));
    assert(f =~= (EngineView {
        segments: selecting(e, place_after(l, k)),
        state: f.state,
        ..at_key(e)
    }));
}

/// The digit keys `1` to `9` choose a candidate of the current page of nine and commit
/// all segments with it, as Return does once it is selected. Where the page has no such
/// candidate, nothing happens.
pub proof fn law_digits_choose(e: EngineView, d: int, c: char, m: KeyModifiers)
    requires
        e.wf(),
        e.state is Conversion,
        1 <= d <= 9,
        c as int == '0' as int + d,
    ensures
        ({
            let key = KeyEvent { keysym: Keysym::Character(c), modifiers: m };
            let (f, r) = keyboard::key_processed(e, key);
            let l = e.segments[e.current].candidates;
            let place = (l.cursor / 9) * 9 + d - 1;
            if place < l.candidates.len() {
                let chosen = EngineView { segments: selecting(e, place), ..at_key(e) };
                &&& f == commit::conversion_committed(chosen).0
                &&& r == commit::conversion_committed(chosen).1
                &&& endings::commits_only(r, commit::committed_text(chosen.segments))
            } else {
                f == at_key(e) && r.consumed && r.actions.len() == 0
            }
        }),
{
    let key = KeyEvent { keysym: Keysym::Character(c), modifiers: m };
    let l = e.segments[e.current].candidates;
    let place = (l.cursor / 9) * 9 + d - 1;
    assert(l.cursor - l.cursor % 9 == (l.cursor / 9) * 9);
    assert('1' <= c && c <= '9');
    let g = keyboard::key_begun(e);
    assert(g =~= at_key(e));
    assert(super::keys::digit_of(key.keysym) == Some(d as nat));
    assert(keyboard::key_processed(e, key) == keyboard::digit_selected(g, d));
    if place < l.candidates.len() {
        let chosen = EngineView { segments: selecting(e, place), ..at_key(e) };
        assert(l.picked(d) =~= (ListView { candidates: l.candidates, cursor: place }));
        assert(keyboard::with_list(g, l.picked(d)).segments =~= selecting(e, place));
        assert(keyboard::with_list(g, l.picked(d)) =~= chosen);
        let r = commit::conversion_committed(chosen).1;
        assert(r.actions[3] == ActionView::Commit(commit::committed_text(chosen.segments)));
    }
}

/// A key types a character into the text: neither Ctrl nor Alt is held down.
pub open spec fn types(m: KeyModifiers) -> bool {
    !m.control_key && !m.alt_key
}

/// Return commits, Escape and Backspace go back, Left and Right move the focus or, with
/// Shift, a border, and a character that is no digit commits and starts a new input. With
/// Ctrl or Alt a character is not taken, and other keys never are.
pub proof fn law_keys_in_conversion(e: EngineView, key: KeyEvent)
    requires
        e.state is Conversion,
        !walks(stands_for(key)),
    ensures
        ({
            let f = at_key(e);
            let r = keyboard::key_processed(e, key);
            match key.keysym {
                Keysym::RETURN => r == commit::conversion_committed(f),
                Keysym::ESCAPE => r == commit::cancelled(f),
                Keysym::BACKSPACE => r == commit::cancelled(f),
                Keysym::LEFT => if key.modifiers.shift_key {
                    r == segments::shrunk(f)
                } else {
                    r == segments::moved_left(f)
                },
                Keysym::RIGHT => if key.modifiers.shift_key {
                    r == segments::expanded(f)
                } else {
                    r == segments::moved_right(f)
                },
                Keysym::Character(c) => {
                    &&& !('1' <= c && c <= '9') && types(key.modifiers) ==> r
                        == commit::committed_and_continued(f, c)
                    &&& !('1' <= c && c <= '9') && !types(key.modifiers) ==> r.0 == f
                        && !r.1.consumed && r.1.actions.len() == 0
                },
                _ => r.0 == f && !r.1.consumed && r.1.actions.len() == 0,
            }
        }),
{
    assert(keyboard::key_begun(e) =~= at_key(e));
}

/// What is reported while typing: the preedit of the state, and the mode.
pub open spec fn reports_typing(r: ResultView, e: EngineView) -> bool {
    &&& r.consumed
    &&& r.actions.len() == 2
    &&& r.actions[0] == ActionView::UpdatePreedit(e.state->Composing_preedit)
    &&& r.actions[1] == ActionView::UpdateAuxText(
        match e.mode {
            InputMode::Hiragana => "[あ]"@,
            InputMode::Alphabet => "[A]"@,
            InputMode::Emoji => "[:]"@,
        },
    )
}

/// A new engine has nothing typed, nothing chosen and nothing loaded; it repairs slips,
/// asks for nine candidates, and gives the models ten characters of context.
pub proof fn law_engine_starts_empty(key: KeyEvent)
    ensures
        ({
            let e = input_method::fresh_engine(EngineConfig::standard());
            &&& e.wf()
            &&& segments::in_step(e)
            &&& e.state is Empty
            &&& e.text.len() == 0 && e.live.len() == 0 && e.segments.len() == 0
            &&& e.romaji.pending.len() == 0 && e.romaji.output.len() == 0
            &&& e.mode == InputMode::Hiragana
            &&& e.learning is None
            &&& e.sources.kanji is None && e.sources.light is None
            &&& e.sources.user is None && e.sources.system is None
            &&& e.sources.rules.len() == 0 && e.sources.symbols.len() == 0
            &&& e.sources.context.len() == 0
            &&& e.model.requests.len() == 0 && !e.model.use_light && !e.model.wanted
            &&& e.sources.config.fuzzy_repair_enabled
            &&& e.sources.config.num_candidates == 9
            &&& e.sources.config.max_api_context_len == 10
            &&& e.sources.config.max_latency_ms == 0
            &&& keyboard::key_processed(e, key).0.learning is None
        }),
{
    let e = input_method::fresh_engine(EngineConfig::standard());
    assert(keyboard::key_begun(e) =~= at_key(e));
}

/// While nothing is typed, a character starts an input and Shift with Space commits a
/// space; no other key is taken.
pub proof fn law_keys_while_empty(e: EngineView, key: KeyEvent)
    requires
        e.state is Empty,
    ensures
        ({
            let f = at_key(e);
            let r = keyboard::key_processed(e, key);
            match key.keysym {
                Keysym::Character(c) if types(key.modifiers) => {
                    &&& r.0 == composing::input_started(f, c)
                    &&& reports_typing(r.1, r.0)
                },
                Keysym::SPACE if types(key.modifiers) && key.modifiers.shift_key => {
                    &&& r.0 == f
                    &&& r.1.consumed
                    &&& endings::commits_only(r.1, " "@)
                },
                _ => r.0 == f && !r.1.consumed && r.1.actions.len() == 0,
            }
        }),
{
    assert(keyboard::key_begun(e) =~= at_key(e));
    let r = keyboard::key_processed(e, key);
    match key.keysym {
        Keysym::SPACE => {
            if types(key.modifiers) && key.modifiers.shift_key {
                assert(r.1.actions[0] == ActionView::Commit(" "@));
            }
        },
        _ => {},
    }
}

/// While a reading is typed, Space and Down start a conversion, Tab one without what was
/// learned, Return commits the reading, and a character is typed. In alphabet mode Space
/// types a space.
pub proof fn law_keys_while_typing(e: EngineView, key: KeyEvent)
    requires
        e.state is Composing,
    ensures
        ({
            let f = at_key(e);
            let r = keyboard::key_processed(e, key);
            match key.keysym {
                Keysym::RETURN => {
                    &&& r.1.consumed
                    &&& endings::commits_only(r.1, composing::flushed(f).text)
                    &&& r.1.actions.contains(ActionView::UpdatePreedit(PreeditView::empty()))
                    &&& r.1.actions.contains(ActionView::HideAuxText)
                    &&& r.0 == EngineView {
                        text: Seq::empty(),
                        cursor: 0,
                        romaji: RomajiView { output: Seq::empty(), pending: Seq::empty() },
                        live: Seq::empty(),
                        mode: InputMode::Hiragana,
                        state: StateView::Empty,
                        ..f
                    }
                },
                Keysym::SPACE => if e.mode == InputMode::Alphabet {
                    r.0 == composing::input_continued(f, ' ') && reports_typing(r.1, r.0)
                } else {
                    r == conversion::started(f, false)
                },
                Keysym::DOWN => r == conversion::started(f, false),
                Keysym::TAB => r == conversion::started(f, true),
                Keysym::Character(c) if types(key.modifiers) => r.0 == composing::input_continued(
                    f,
                    c,
                ) && reports_typing(r.1, r.0),
                _ => r.0 == f && !r.1.consumed && r.1.actions.len() == 0,
            }
        }),
{
    assert(keyboard::key_begun(e) =~= at_key(e));
    let r = keyboard::key_processed(e, key);
    if key.keysym == Keysym::RETURN {
        assert(r.1.actions[2] == ActionView::Commit(composing::flushed(at_key(e)).text));
        assert(r.1.actions[0] == ActionView::UpdatePreedit(PreeditView::empty()));
        assert(r.1.actions[1] == ActionView::HideAuxText);
    }
}

} // verus!
