//! What moving the borders of the segments does, said over the segments themselves.
use super::candidate;
use super::collect;
use super::commit;
use super::conversion;
use super::input_method::EngineView;
use super::offers;
use super::preedit;
use super::preedit::AttributeType;
use super::segments;
use super::state::{ActionView, InputMode, ResultView, SegmentView};
use vstd::prelude::*;

verus! {

/// The segment holds the candidates that `e` has for its reading, and the first of them
/// is selected.
pub open spec fn lists_afresh(s: SegmentView, e: EngineView) -> bool {
    let all = collect::candidates_for(e, s.reading, e.sources.config.num_candidates, false);
    &&& s.candidates.cursor == 0
    &&& s.candidates.candidates.len() == all.len()
    &&& forall|i: int|
        0 <= i < all.len() ==> {
            let c = #[trigger] s.candidates.candidates[i];
            &&& c.text == all[i].text
            &&& c.description == all[i].description
            &&& c.source_label == candidate::shown_label(all[i].source)
            &&& c.reading == if all[i].reading is Some {
                all[i].reading
            } else {
                Some(s.reading)
            }
        }
}

/// One model answers every question: there is no light one, or it has taken over.
pub open spec fn one_model(e: EngineView) -> bool {
    e.sources.light is None || e.model.use_light
}

/// Nothing but the segments, the state and what the models leave behind differs.
pub open spec fn only_segments_differ(f: EngineView, e: EngineView) -> bool {
    f == EngineView { segments: f.segments, state: f.state, model: f.model, ..e }
}

/// The state shows the segments: their texts with the current one highlighted, the caret
/// behind it, and its candidates.
pub open spec fn shows_segments(e: EngineView) -> bool {
    &&& e.state is Conversion
    &&& e.state->candidates == e.segments[e.current].candidates
    &&& e.state->Conversion_preedit.segments.len() == e.segments.len()
    &&& forall|i: int|
        0 <= i < e.segments.len() ==> {
            let part = #[trigger] e.state->Conversion_preedit.segments[i];
            let l = e.segments[i].candidates;
            &&& part.text == if 0 <= l.cursor < l.candidates.len() {
                l.candidates[l.cursor].text
            } else {
                e.segments[i].reading
            }
            &&& part.attribute == if i == e.current {
                AttributeType::Highlight
            } else {
                AttributeType::Underline
            }
        }
    &&& e.state->Conversion_preedit.caret == preedit::joined(
        e.state->Conversion_preedit.segments.subrange(0, e.current + 1),
    ).len()
}

/// What is reported is what the state holds.
pub open spec fn reports_state(r: ResultView, e: EngineView) -> bool {
    &&& r.consumed
    &&& r.actions.len() == 3
    &&& r.actions[0] == ActionView::UpdatePreedit(e.state->Conversion_preedit)
    &&& r.actions[1] == ActionView::ShowCandidates(e.state->candidates)
    &&& r.actions[2] == ActionView::UpdateAuxText(
        conversion::aux_text(e.segments[e.current].reading, e.state->candidates),
    )
}

proof fn lemma_fresh(e: EngineView, reading: Seq<char>)
    ensures
        lists_afresh(segments::fresh_segment(e, reading), e),
        segments::fresh_segment(e, reading).reading == reading,
{
}

proof fn lemma_fresh_after(e: EngineView, own: Seq<char>, reading: Seq<char>)
    requires
        one_model(e),
    ensures
        lists_afresh(segments::fresh_segment(segments::refreshed(e, own), reading), e),
{
    let f = segments::refreshed(e, own);
    lemma_fresh(f, reading);
    assert(collect::candidates_for(f, reading, e.sources.config.num_candidates, false)
        == collect::candidates_for(e, reading, e.sources.config.num_candidates, false));
}

/// Segments that are applied are shown and reported.
pub proof fn lemma_shows(e: EngineView)
    requires
        0 <= e.current < e.segments.len(),
    ensures
        shows_segments(segments::segments_applied(e)),
        reports_state(segments::segments_result(e), segments::segments_applied(e)),
{
    let f = segments::segments_applied(e);
    let parts = segments::preedit_parts(e.segments, e.current);
    assert(segments::parts_to_caret(e.segments, e.current) =~= parts.subrange(0, e.current + 1));
}

/// Shift and Left in a segment of several characters: it gives its last character to the
/// front of the next segment, which is new if there was none. Both list the candidates of
/// their new readings, the first of which is selected; all other segments stay as they
/// are. A segment of one character keeps it.
pub proof fn law_shrunk_segments(e: EngineView)
    requires
        e.wf(),
        e.state is Conversion,
    ensures
        ({
            let c = e.current;
            let own = e.segments[c].reading;
            let f = segments::shrunk(e).0;
            let last = c + 1 == e.segments.len();
            if own.len() <= 1 {
                f == e && segments::shrunk(e).1 == (ResultView {
                    consumed: true,
                    actions: Seq::empty(),
                })
            } else {
                &&& only_segments_differ(f, e)
                &&& shows_segments(f)
                &&& reports_state(segments::shrunk(e).1, f)
                &&& f.segments.len() == e.segments.len() + if last {
                    1int
                } else {
                    0
                }
                &&& forall|i: int|
                    0 <= i < e.segments.len() && i != c && i != c + 1 ==> f.segments[i]
                        == #[trigger] e.segments[i]
                &&& f.segments[c].reading == own.subrange(0, own.len() - 1)
                &&& f.segments[c + 1].reading == seq![own[own.len() - 1]] + if last {
                    Seq::empty()
                } else {
                    e.segments[c + 1].reading
                }
                &&& lists_afresh(f.segments[c], e)
                &&& lists_afresh(
                    f.segments[c + 1],
                    collect::asked(
                        e,
                        f.segments[c].reading,
                        e.sources.config.num_candidates,
                    ),
                )
                &&& one_model(e) ==> lists_afresh(f.segments[c + 1], e)
            }
        }),
{
    let c = e.current;
    let own = e.segments[c].reading;
    let f = segments::shrunk(e).0;
    if own.len() > 1 {
        let g = segments::shrunk_segments(e);
        lemma_shows(g);
        let a = own.drop_last();
        let b = segments::grown_next(e);
        assert(f.segments[c] == segments::fresh_segment(e, a));
        assert(f.segments[c + 1] == segments::fresh_segment(segments::refreshed(e, a), b));
        assert(seq![own.last()] + Seq::<char>::empty() =~= seq![own.last()]);
        lemma_fresh(e, a);
        lemma_fresh(segments::refreshed(e, a), b);
        if one_model(e) {
            lemma_fresh_after(e, a, b);
        }
        assert(f =~= (EngineView { segments: f.segments, state: f.state, model: f.model, ..e }));
    }
}

/// Shift and Right before another segment: the current segment takes its first character.
/// Both list the candidates of their new readings, the first of which is selected; a
/// segment that gave its only character is gone, and all others stay as they are. The
/// last segment has nothing to take.
pub proof fn law_expanded_segments(e: EngineView)
    requires
        e.wf(),
        e.state is Conversion,
        segments::none_blank(e.segments),
    ensures
        ({
            let c = e.current;
            let own = e.segments[c].reading;
            let next = e.segments[c + 1].reading;
            let f = segments::expanded(e).0;
            if c + 1 == e.segments.len() {
                f == e && segments::expanded(e).1 == (ResultView {
                    consumed: true,
                    actions: Seq::empty(),
                })
            } else {
                &&& only_segments_differ(f, e)
                &&& shows_segments(f)
                &&& reports_state(segments::expanded(e).1, f)
                &&& f.segments[c].reading == own.push(next[0])
                &&& lists_afresh(f.segments[c], e)
                &&& forall|i: int| 0 <= i < c ==> f.segments[i] == #[trigger] e.segments[i]
                &&& if next.len() == 1 {
                    &&& f.segments.len() == e.segments.len() - 1
                    &&& forall|i: int|
                        c + 1 < i < e.segments.len() ==> f.segments[i - 1]
                            == #[trigger] e.segments[i]
                } else {
                    &&& f.segments.len() == e.segments.len()
                    &&& forall|i: int|
                        c + 1 < i < e.segments.len() ==> f.segments[i] == #[trigger] e.segments[i]
                    &&& f.segments[c + 1].reading == next.subrange(1, next.len() as int)
                    &&& lists_afresh(
                        f.segments[c + 1],
                        collect::asked(
                            e,
                            f.segments[c].reading,
                            e.sources.config.num_candidates,
                        ),
                    )
                    &&& one_model(e) ==> lists_afresh(f.segments[c + 1], e)
                }
            }
        }),
{
    let c = e.current;
    let own = e.segments[c].reading;
    let f = segments::expanded(e).0;
    if c + 1 < e.segments.len() {
        let next = e.segments[c + 1].reading;
        let g = segments::expanded_segments(e);
        lemma_shows(g);
        let a = own.push(next.first());
        let b = next.drop_first();
        assert(f.segments[c] == segments::fresh_segment(e, a));
        lemma_fresh(e, a);
        if next.len() > 1 {
            assert(f.segments[c + 1] == segments::fresh_segment(segments::refreshed(e, a), b));
            lemma_fresh(segments::refreshed(e, a), b);
            if one_model(e) {
                lemma_fresh_after(e, a, b);
            }
        }
        assert(f =~= (EngineView { segments: f.segments, state: f.state, model: f.model, ..e }));
    }
}

/// Left and Right move the focus by one segment, show the candidates of that segment, and
/// change nothing else. At the first and the last segment the key is not taken.
pub proof fn law_focus_moves_by_one(e: EngineView)
    requires
        e.wf(),
        e.state is Conversion,
    ensures
        ({
            let (f, r) = segments::moved_left(e);
            if e.current == 0 {
                f == e && !r.consumed && r.actions.len() == 0
            } else {
                &&& f == EngineView { current: e.current - 1, state: f.state, ..e }
                &&& shows_segments(f)
                &&& reports_state(r, f)
            }
        }),
        ({
            let (f, r) = segments::moved_right(e);
            if e.current + 1 == e.segments.len() {
                f == e && !r.consumed && r.actions.len() == 0
            } else {
                &&& f == EngineView { current: e.current + 1, state: f.state, ..e }
                &&& shows_segments(f)
                &&& reports_state(r, f)
            }
        }),
{
    if e.current > 0 {
        lemma_shows(EngineView { current: e.current - 1, ..e });
    }
    if e.current + 1 < e.segments.len() {
        lemma_shows(EngineView { current: e.current + 1, ..e });
    }
}

/// A key that moves a border or the focus.
#[derive(Debug, Clone, Copy, PartialEq, Eq, Structural)]
pub enum SegmentKey {
    Left,
    Right,
    ShiftLeft,
    ShiftRight,
}

/// The engine after such a key.
pub open spec fn moved(e: EngineView, k: SegmentKey) -> EngineView {
    match k {
        SegmentKey::Left => segments::moved_left(e).0,
        SegmentKey::Right => segments::moved_right(e).0,
        SegmentKey::ShiftLeft => segments::shrunk(e).0,
        SegmentKey::ShiftRight => segments::expanded(e).0,
    }
}

/// The engine after such keys, one after the other.
pub open spec fn moved_by(e: EngineView, ks: Seq<SegmentKey>) -> EngineView
    decreases ks.len(),
{
    if ks.len() == 0 {
        e
    } else {
        moved(moved_by(e, ks.drop_last()), ks.last())
    }
}

/// There are neither models nor dictionaries nor a learning cache.
pub open spec fn nothing_loaded(e: EngineView) -> bool {
    e.sources.kanji is None && e.sources.user is None && e.sources.system is None && e.learning
        is None && e.mode != InputMode::Emoji
}

/// Every segment shows its reading.
pub open spec fn shows_readings(s: Seq<SegmentView>) -> bool {
    forall|i: int| 0 <= i < s.len() ==> (#[trigger] s[i]).text() == s[i].reading
}

proof fn lemma_fresh_reading(s: SegmentView, e: EngineView)
    requires
        lists_afresh(s, e),
        nothing_loaded(e),
    ensures
        s.text() == s.reading,
{
    offers::law_bare_reading_is_first(e, s.reading, e.sources.config.num_candidates, false);
    let c = s.candidates.candidates[0];
}

proof fn lemma_spelled_is_committed(s: Seq<SegmentView>)
    requires
        shows_readings(s),
    ensures
        commit::committed_text(s) == segments::spelled(s),
    decreases s.len(),
{
    if s.len() > 0 {
        assert forall|i: int| 0 <= i < s.drop_last().len() implies (
        #[trigger] s.drop_last()[i]).text() == s.drop_last()[i].reading by {
            assert(s[i].text() == s[i].reading);
        }
        lemma_spelled_is_committed(s.drop_last());
        assert(s[s.len() - 1].text() == s[s.len() - 1].reading);
    }
}

proof fn lemma_moved(e: EngineView, k: SegmentKey)
    requires
        e.wf(),
        e.state is Conversion,
        segments::in_step(e),
        nothing_loaded(e),
        shows_readings(e.segments),
    ensures
        moved(e, k).wf(),
        moved(e, k).state is Conversion,
        segments::in_step(moved(e, k)),
        nothing_loaded(moved(e, k)),
        shows_readings(moved(e, k).segments),
        moved(e, k).text == e.text,
{
    let f = moved(e, k);
    segments::lemma_segments_wf(e);
    let c = e.current;
    match k {
        SegmentKey::Left => {
            law_focus_moves_by_one(e);
        },
        SegmentKey::Right => {
            law_focus_moves_by_one(e);
        },
        SegmentKey::ShiftLeft => {
            segments::law_shrink_keeps_text(e);
            law_shrunk_segments(e);
            if e.segments[c].reading.len() > 1 {
                segments::lemma_applied_twice(segments::shrunk_segments(e));
                lemma_fresh_reading(f.segments[c], e);
                lemma_fresh_reading(
                    f.segments[c + 1],
                    collect::asked(e, f.segments[c].reading, e.sources.config.num_candidates),
                );
                assert forall|i: int| 0 <= i < f.segments.len() implies (
                #[trigger] f.segments[i]).text() == f.segments[i].reading by {
                    if i != c && i != c + 1 {
                        assert(f.segments[i] == e.segments[i]);
                    }
                }
            }
        },
        SegmentKey::ShiftRight => {
            segments::law_expand_keeps_text(e);
            law_expanded_segments(e);
            if c + 1 < e.segments.len() {
                segments::lemma_applied_twice(segments::expanded_segments(e));
                lemma_fresh_reading(f.segments[c], e);
                let gone = e.segments[c + 1].reading.len() == 1;
                if !gone {
                    lemma_fresh_reading(
                        f.segments[c + 1],
                        collect::asked(e, f.segments[c].reading, e.sources.config.num_candidates),
                    );
                }
                assert forall|i: int| 0 <= i < f.segments.len() implies (
                #[trigger] f.segments[i]).text() == f.segments[i].reading by {
                    if i < c {
                        assert(f.segments[i] == e.segments[i]);
                    } else if i > c && gone {
                        assert(f.segments[i] == e.segments[i + 1]);
                    } else if i > c + 1 {
                        assert(f.segments[i] == e.segments[i]);
                    }
                }
            }
        },
    }
}

proof fn lemma_moved_by(e: EngineView, ks: Seq<SegmentKey>)
    requires
        e.wf(),
        e.state is Conversion,
        segments::in_step(e),
        nothing_loaded(e),
        shows_readings(e.segments),
    ensures
        moved_by(e, ks).wf(),
        moved_by(e, ks).state is Conversion,
        segments::in_step(moved_by(e, ks)),
        nothing_loaded(moved_by(e, ks)),
        shows_readings(moved_by(e, ks).segments),
        moved_by(e, ks).text == e.text,
    decreases ks.len(),
{
    if ks.len() > 0 {
        lemma_moved_by(e, ks.drop_last());
        lemma_moved(moved_by(e, ks.drop_last()), ks.last());
    }
}

/// With nothing loaded, the preedit spells what was typed, however the borders and the
/// focus are moved.
pub proof fn law_borders_keep_what_is_shown(e: EngineView, ks: Seq<SegmentKey>)
    requires
        e.wf(),
        e.state is Conversion,
        segments::in_step(e),
        nothing_loaded(e),
        shows_readings(e.segments),
    ensures
        moved_by(e, ks).state is Conversion,
        moved_by(e, ks).state->Conversion_preedit.text() == e.text,
{
    lemma_moved_by(e, ks);
    let f = moved_by(e, ks);
    let parts = segments::preedit_parts(f.segments, f.current);
    let n = f.segments.len() as int;
    segments::lemma_parts_joined(f.segments, f.current, n);
    assert(parts.take(n) =~= parts);
    assert(f.segments.take(n) =~= f.segments);
    lemma_spelled_is_committed(f.segments);
    assert(f.state->Conversion_preedit == segments::segments_applied(f).state->Conversion_preedit);
}

} // verus!
