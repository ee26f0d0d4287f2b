//! Segments: the parts of the input that are converted on their own.
use super::candidate::ListView;
use super::collect;
use super::commit;
use super::conversion;
use super::input_method::{EngineView, InputMethodEngine};
use super::preedit;
use super::preedit::{AttributeType, Preedit, PreeditSegment, PreeditSegmentView, PreeditView};
use super::state;
use super::state::{
    ConversionSegment, EngineAction, EngineResult, InputState, ResultView, SegmentView, StateView,
};
use crate::text::{char_count, chars_of, text_of};
use vstd::prelude::*;

verus! {

/// The preedit of a conversion: the texts of the segments, the current one
/// highlighted, and the caret behind it.
pub open spec fn preedit_parts(segments: Seq<SegmentView>, current: int) -> Seq<
    PreeditSegmentView,
> {
    Seq::new(
        segments.len(),
        |i: int|
            PreeditSegmentView {
                text: segments[i].text(),
                attribute: if i == current {
                    AttributeType::Highlight
                } else {
                    AttributeType::Underline
                },
            },
    )
}

/// The parts up to the current one.
pub open spec fn parts_to_caret(segments: Seq<SegmentView>, current: int) -> Seq<
    PreeditSegmentView,
> {
    let parts = preedit_parts(segments, current);
    if current + 1 < parts.len() {
        parts.take(current + 1)
    } else {
        parts
    }
}

pub open spec fn segments_preedit(segments: Seq<SegmentView>, current: int) -> PreeditView {
    PreeditView {
        segments: preedit_parts(segments, current),
        caret: preedit::joined(parts_to_caret(segments, current)).len() as int,
    }
}

/// The segment that is shown: the current one, or the last.
pub open spec fn shown_segment(e: EngineView) -> SegmentView {
    if e.current < e.segments.len() {
        e.segments[e.current]
    } else {
        e.segments.last()
    }
}

/// The engine with the state that the segments give.
pub open spec fn segments_applied(e: EngineView) -> EngineView {
    if e.segments.len() == 0 {
        e
    } else {
        EngineView {
            state: StateView::Conversion {
                preedit: segments_preedit(e.segments, e.current),
                candidates: shown_segment(e).candidates,
            },
            ..e
        }
    }
}

/// What is reported for the segments.
pub open spec fn segments_result(e: EngineView) -> ResultView {
    if e.segments.len() == 0 {
        ResultView::consumed(Seq::empty())
    } else {
        conversion::conversion_result(
            segments_preedit(e.segments, e.current),
            shown_segment(e).reading,
            shown_segment(e).candidates,
        )
    }
}

/// The engine with the focus on another segment.
pub open spec fn focused(e: EngineView, current: int) -> EngineView {
    segments_applied(EngineView { current, ..e })
}

/// The key Left: the focus moves to the segment before.
pub open spec fn moved_left(e: EngineView) -> (EngineView, ResultView) {
    if e.current == 0 || e.segments.len() <= 1 {
        (e, ResultView::not_consumed())
    } else {
        (focused(e, e.current - 1), segments_result(EngineView { current: e.current - 1, ..e }))
    }
}

/// The key Right: the focus moves to the segment behind.
pub open spec fn moved_right(e: EngineView) -> (EngineView, ResultView) {
    if e.current + 1 >= e.segments.len() {
        (e, ResultView::not_consumed())
    } else {
        (focused(e, e.current + 1), segments_result(EngineView { current: e.current + 1, ..e }))
    }
}

/// A segment with fresh candidates for its reading.
pub open spec fn fresh_segment(e: EngineView, reading: Seq<char>) -> SegmentView {
    SegmentView {
        reading,
        candidates: collect::shown_candidates(e, reading, e.sources.config.num_candidates),
    }
}

/// The engine after fresh candidates were built for a reading.
pub open spec fn refreshed(e: EngineView, reading: Seq<char>) -> EngineView {
    collect::asked(e, reading, e.sources.config.num_candidates)
}

/// The reading of the next segment after the current one gave up its last character.
pub open spec fn grown_next(e: EngineView) -> Seq<char> {
    let moved = seq![e.segments[e.current].reading.last()];
    if e.current + 1 < e.segments.len() {
        moved + e.segments[e.current + 1].reading
    } else {
        moved
    }
}

/// The segments after the current one gave up its last character to the next, which
/// is new if there was none.
pub open spec fn shrunk_segments(e: EngineView) -> EngineView {
    let own = e.segments[e.current].reading.drop_last();
    let next = grown_next(e);
    let first = fresh_segment(e, own);
    let second = fresh_segment(refreshed(e, own), next);
    EngineView {
        segments: if e.current + 1 < e.segments.len() {
            e.segments.update(e.current, first).update(e.current + 1, second)
        } else {
            e.segments.update(e.current, first).push(second)
        },
        ..refreshed(refreshed(e, own), next)
    }
}

/// The keys Shift and Left: the current segment gives up its last character. One of
/// a single character keeps it.
pub open spec fn shrunk(e: EngineView) -> (EngineView, ResultView) {
    if e.segments.len() == 0 {
        (e, ResultView::not_consumed())
    } else if e.segments[e.current].reading.len() <= 1 {
        (e, ResultView::consumed(Seq::empty()))
    } else {
        (segments_applied(shrunk_segments(e)), segments_result(shrunk_segments(e)))
    }
}

/// The segments after the current one took the first character of the next, which
/// goes if that was its only one.
pub open spec fn expanded_segments(e: EngineView) -> EngineView {
    let taken = e.segments[e.current + 1].reading;
    let own = e.segments[e.current].reading.push(taken.first());
    let next = taken.drop_first();
    let first = fresh_segment(e, own);
    if next.len() == 0 {
        EngineView {
            segments: e.segments.update(e.current, first).remove(e.current + 1),
            ..refreshed(e, own)
        }
    } else {
        EngineView {
            segments: e.segments.update(e.current, first).update(
                e.current + 1,
                fresh_segment(refreshed(e, own), next),
            ),
            ..refreshed(refreshed(e, own), next)
        }
    }
}

/// The keys Shift and Right: the current segment takes the first character of the
/// next, if there is one.
pub open spec fn expanded(e: EngineView) -> (EngineView, ResultView) {
    if e.segments.len() == 0 {
        (e, ResultView::not_consumed())
    } else if e.current + 1 >= e.segments.len() || e.segments[e.current + 1].reading.len() == 0 {
        (e, ResultView::consumed(Seq::empty()))
    } else {
        (segments_applied(expanded_segments(e)), segments_result(expanded_segments(e)))
    }
}

impl InputMethodEngine {
    /// The preedit of a conversion: the current segment highlighted, the others
    /// underlined.
    pub fn build_multi_segment_preedit(&self) -> (r: Preedit)
        ensures
            r@ == segments_preedit(self@.segments, self@.current),
    {
        let ghost all = preedit_parts(self@.segments, self@.current);
        let ghost caret_parts = parts_to_caret(self@.segments, self@.current);
        let mut parts: Vec<PreeditSegment> = Vec::new();
        let mut before_caret = String::new();
        let mut i: usize = 0;
        assert(preedit::part_views(parts@) =~= all.take(0));
        assert(caret_parts.take(0) =~= Seq::empty());
        while i < self.segments.len()
            invariant
                i <= self.segments.len(),
                all == preedit_parts(self@.segments, self@.current),
                caret_parts == parts_to_caret(self@.segments, self@.current),
                preedit::part_views(parts@) == all.take(i as int),
                before_caret@ == preedit::joined(
                    caret_parts.take(if i <= caret_parts.len() {
                        i as int
                    } else {
                        caret_parts.len() as int
                    }),
                ),
            decreases self.segments.len() - i,
        {
            let ghost before = preedit::part_views(parts@);
            let t = self.segments[i].text();
            assert(self@.segments[i as int] == self.segments@[i as int]@);
            let part = if i == self.current_segment {
                PreeditSegment::highlighted(t.as_str())
            } else {
                PreeditSegment::new(t.as_str(), AttributeType::Underline)
            };
            assert(part@ =~= all[i as int]);
            if i <= self.current_segment {
                assert(caret_parts.take(i + 1).drop_last() =~= caret_parts.take(i as int));
                before_caret.append(t.as_str());
            }
            parts.push(part);
            i += 1;
            assert(preedit::part_views(parts@) =~= before.push(part@));
            assert(all.take(i as int) =~= all.take(i - 1).push(all[i - 1]));
        }
        assert(all.take(i as int) =~= all);
        assert(caret_parts.take(caret_parts.len() as int) =~= caret_parts);
        Preedit::from_segments(parts, char_count(before_caret.as_str()))
    }

    /// Rebuilds the state of the conversion from the segments and reports it.
    pub fn apply_segment_state(&mut self) -> (r: EngineResult)
        ensures
            final(self)@ == segments_applied(old(self)@),
            r@ == segments_result(old(self)@),
    {
        let ghost start = self@;
        if self.segments.len() == 0 {
            assert(start.segments.len() == 0);
            return EngineResult::consumed();
        }
        let current = if self.current_segment < self.segments.len() {
            self.current_segment
        } else {
            self.segments.len() - 1
        };
        assert(shown_segment(start) == self.segments@[current as int]@);
        let preedit = self.build_multi_segment_preedit();
        let candidates = self.segments[current].candidates.clone();
        let reading = self.segments[current].reading.clone();
        self.state = InputState::Conversion {
            preedit: preedit.clone(),
            candidates: candidates.clone(),
        };
        let aux = self.format_aux_conversion_with_page(reading.as_str(), Some(&candidates));
        let r = EngineResult::consumed().with_action(
            EngineAction::UpdatePreedit(preedit),
        ).with_action(EngineAction::ShowCandidates(candidates)).with_action(
            EngineAction::UpdateAuxText(aux),
        );
        assert(r@ =~= segments_result(start));
        r
    }

    /// Moves the focus to the segment before.
    pub fn move_segment_left(&mut self) -> (r: EngineResult)
        requires
            old(self)@.wf(),
        ensures
            final(self)@ == moved_left(old(self)@).0,
            r@ == moved_left(old(self)@).1,
    {
        if self.current_segment == 0 || self.segments.len() <= 1 {
            return EngineResult::not_consumed();
        }
        self.current_segment = self.current_segment - 1;
        self.apply_segment_state()
    }

    /// Moves the focus to the segment behind.
    pub fn move_segment_right(&mut self) -> (r: EngineResult)
        requires
            old(self)@.wf(),
        ensures
            final(self)@ == moved_right(old(self)@).0,
            r@ == moved_right(old(self)@).1,
    {
        if self.segments.len() == 0 || self.current_segment >= self.segments.len() - 1 {
            return EngineResult::not_consumed();
        }
        self.current_segment = self.current_segment + 1;
        self.apply_segment_state()
    }

    /// Moves the last character of the current segment to the next, or into a new
    /// one, and converts both again.
    pub fn shrink_segment(&mut self) -> (r: EngineResult)
        requires
            old(self)@.wf(),
        ensures
            final(self)@ == shrunk(old(self)@).0,
            r@ == shrunk(old(self)@).1,
    {
        let ghost start = self@;
        if self.segments.len() == 0 {
            return EngineResult::not_consumed();
        }
        let current = self.current_segment;
        assert(start.segments[start.current] == self.segments@[current as int]@);
        let chars = chars_of(self.segments[current].reading.as_str());
        if chars.len() <= 1 {
            return EngineResult::consumed();
        }
        let (front, back) = chars.as_slice().split_at(chars.len() - 1);
        assert(front@ =~= chars@.drop_last());
        assert(back@ =~= seq![chars@.last()]);
        let own = text_of(front);
        let mut next = text_of(back);
        let has_next = current < self.segments.len() - 1;
        if has_next {
            assert(start.segments[start.current + 1] == self.segments@[current + 1]@);
            next.append(self.segments[current + 1].reading.as_str());
        }
        assert(next@ == grown_next(start));
        let n = self.config.num_candidates;
        let own_candidates = self.build_segment_candidates(own.as_str(), n);
        let next_candidates = self.build_segment_candidates(next.as_str(), n);
        let first = ConversionSegment { reading: own, candidates: own_candidates };
        let second = ConversionSegment { reading: next, candidates: next_candidates };
        let ghost before = self.segments@;
        self.segments.set(current, first);
        if has_next {
            self.segments.set(current + 1, second);
            assert(state::segment_views(self.segments@) =~= state::segment_views(before).update(
                current as int,
                first@,
            ).update(current + 1, second@));
        } else {
            self.segments.push(second);
            assert(state::segment_views(self.segments@) =~= state::segment_views(before).update(
                current as int,
                first@,
            ).push(second@));
        }
        assert(self@ =~= shrunk_segments(start));
        self.apply_segment_state()
    }

    /// Moves the first character of the next segment to the current one and converts
    /// both again; a next segment without characters goes.
    pub fn expand_segment(&mut self) -> (r: EngineResult)
        requires
            old(self)@.wf(),
        ensures
            final(self)@ == expanded(old(self)@).0,
            r@ == expanded(old(self)@).1,
    {
        let ghost start = self@;
        if self.segments.len() == 0 {
            return EngineResult::not_consumed();
        }
        let current = self.current_segment;
        if current >= self.segments.len() - 1 {
            return EngineResult::consumed();
        }
        assert(start.segments[start.current] == self.segments@[current as int]@);
        assert(start.segments[start.current + 1] == self.segments@[current + 1]@);
        let taken = chars_of(self.segments[current + 1].reading.as_str());
        if taken.len() == 0 {
            return EngineResult::consumed();
        }
        let (_, rest) = taken.as_slice().split_at(1);
        assert(rest@ =~= taken@.drop_first());
        let next = text_of(rest);
        let mut own = self.segments[current].reading.clone();
        own.push(taken[0]);
        let n = self.config.num_candidates;
        let own_candidates = self.build_segment_candidates(own.as_str(), n);
        let first = ConversionSegment { reading: own, candidates: own_candidates };
        let ghost before = self.segments@;
        self.segments.set(current, first);
        if next.as_str().is_empty() {
            let _ = self.segments.remove(current + 1);
            assert(state::segment_views(self.segments@) =~= state::segment_views(before).update(
                current as int,
                first@,
            ).remove(current + 1));
        } else {
            let ghost mid_views = state::segment_views(self.segments@);
            assert(mid_views =~= state::segment_views(before).update(current as int, first@));
            let next_candidates = self.build_segment_candidates(next.as_str(), n);
            assert(self@.segments == mid_views);
            assert(self.segments@.len() == self@.segments.len());
            let ghost kept = self.segments@;
            let second = ConversionSegment { reading: next, candidates: next_candidates };
            self.segments.set(current + 1, second);
            assert(state::segment_views(self.segments@) =~= state::segment_views(kept).update(
                current + 1,
                second@,
            ));
        }
        assert(self@ =~= expanded_segments(start));
        self.apply_segment_state()
    }
}

/// Moving the focus or a border leaves a conversion whose state shows the candidates
/// of its current segment.
pub proof fn lemma_segments_wf(e: EngineView)
    requires
        e.wf(),
    ensures
        moved_left(e).0.wf(),
        moved_right(e).0.wf(),
        shrunk(e).0.wf(),
        expanded(e).0.wf(),
{
    if e.segments.len() > 0 {
        let s = shrunk_segments(e);
        assert forall|i: int| 0 <= i < s.segments.len() implies (
        #[trigger] s.segments[i]).candidates.wf() by {
            if i != e.current && i != e.current + 1 {
                assert(s.segments[i] == e.segments[i]);
            }
        }
        if e.current + 1 < e.segments.len() {
            let x = expanded_segments(e);
            assert forall|i: int| 0 <= i < x.segments.len() implies (
            #[trigger] x.segments[i]).candidates.wf() by {
                if i < e.current {
                    assert(x.segments[i] == e.segments[i]);
                } else if i > e.current {
                    assert(x.segments[i] == e.segments[i] || x.segments[i] == e.segments[i + 1]
                        || i == e.current + 1);
                }
            }
        }
    }
}

/// The readings of the segments.
pub open spec fn readings(segments: Seq<SegmentView>) -> Seq<Seq<char>> {
    segments.map_values(|s: SegmentView| s.reading)
}

/// The readings of the segments, one behind the other.
pub open spec fn spelled(segments: Seq<SegmentView>) -> Seq<char>
    decreases segments.len(),
{
    if segments.len() == 0 {
        Seq::empty()
    } else {
        spelled(segments.drop_last()) + segments.last().reading
    }
}

/// No segment is without a reading.
pub open spec fn none_blank(segments: Seq<SegmentView>) -> bool {
    forall|i: int| 0 <= i < segments.len() ==> (#[trigger] segments[i]).reading.len() > 0
}

/// In a conversion the segments divide up the text that was typed, none of them is
/// without a reading, and the state is the one that the segments give.
pub open spec fn in_step(e: EngineView) -> bool {
    e.state is Conversion ==> {
        &&& spelled(e.segments) == e.text
        &&& none_blank(e.segments)
        &&& segments_applied(e) == e
    }
}

proof fn lemma_spelled_concat(a: Seq<SegmentView>, b: Seq<SegmentView>)
    ensures
        spelled(a + b) == spelled(a) + spelled(b),
    decreases b.len(),
{
    if b.len() == 0 {
        assert(a + b =~= a);
        assert(spelled(a) + spelled(b) =~= spelled(a));
    } else {
        assert((a + b).drop_last() =~= a + b.drop_last());
        lemma_spelled_concat(a, b.drop_last());
        assert(spelled(a + b) =~= spelled(a) + spelled(b));
    }
}

proof fn lemma_spelled_one(s: SegmentView)
    ensures
        spelled(seq![s]) == s.reading,
{
    assert(seq![s].drop_last() =~= Seq::<SegmentView>::empty());
    assert(spelled(Seq::<SegmentView>::empty()) =~= Seq::<char>::empty());
    reveal_with_fuel(spelled, 2);
    assert(spelled(seq![s]) =~= s.reading);
}

/// What is spelled before, at, and behind a segment.
proof fn lemma_spelled_at(segments: Seq<SegmentView>, i: int)
    requires
        0 <= i < segments.len(),
    ensures
        spelled(segments) == spelled(segments.take(i)) + segments[i].reading + spelled(
            segments.skip(i + 1),
        ),
{
    let front = segments.take(i);
    let one = seq![segments[i]];
    let back = segments.skip(i + 1);
    assert(segments =~= front + one + back);
    lemma_spelled_concat(front + one, back);
    lemma_spelled_concat(front, one);
    lemma_spelled_one(segments[i]);
}

/// What is spelled before, at, and behind two segments.
proof fn lemma_spelled_at_two(segments: Seq<SegmentView>, i: int)
    requires
        0 <= i,
        i + 1 < segments.len(),
    ensures
        spelled(segments) == spelled(segments.take(i)) + (segments[i].reading + segments[i
            + 1].reading) + spelled(segments.skip(i + 2)),
{
    lemma_spelled_at(segments, i);
    let back = segments.skip(i + 1);
    lemma_spelled_at(back, 0);
    assert(back.take(0) =~= Seq::empty());
    assert(spelled(back.take(0)) =~= Seq::empty());
    assert(back.skip(1) =~= segments.skip(i + 2));
    assert(spelled(segments) =~= spelled(segments.take(i)) + (segments[i].reading + segments[i
        + 1].reading) + spelled(segments.skip(i + 2)));
}

/// Shrinking a segment moves its last character over the border, and the characters
/// stay in place: the segments spell the same text as before, and none becomes blank.
pub proof fn law_shrink_keeps_text(e: EngineView)
    requires
        e.wf(),
        e.state is Conversion,
    ensures
        spelled(shrunk(e).0.segments) == spelled(e.segments),
        none_blank(e.segments) ==> none_blank(shrunk(e).0.segments),
        shrunk(e).0.text == e.text,
        shrunk(e).0.current == e.current,
{
    let c = e.current;
    let own = e.segments[c].reading;
    if own.len() > 1 {
        let s = shrunk_segments(e).segments;
        lemma_spelled_at_two(s, c);
        assert(s.take(c) =~= e.segments.take(c));
        if c + 1 < e.segments.len() {
            lemma_spelled_at_two(e.segments, c);
            assert(s.skip(c + 2) =~= e.segments.skip(c + 2));
            assert(s[c].reading + s[c + 1].reading =~= own + e.segments[c + 1].reading);
        } else {
            lemma_spelled_at(e.segments, c);
            assert(s.skip(c + 2) =~= e.segments.skip(c + 1));
            assert(s[c].reading + s[c + 1].reading =~= own);
        }
        if none_blank(e.segments) {
            assert forall|i: int| 0 <= i < s.len() implies (#[trigger] s[i]).reading.len() > 0 by {
                if i != c && i != c + 1 {
                    assert(s[i] == e.segments[i]);
                }
            }
        }
    }
}

/// Expanding a segment moves the first character of the next one over the border, and
/// the characters stay in place: the segments spell the same text as before, and none
/// becomes blank.
pub proof fn law_expand_keeps_text(e: EngineView)
    requires
        e.wf(),
        e.state is Conversion,
    ensures
        spelled(expanded(e).0.segments) == spelled(e.segments),
        none_blank(e.segments) ==> none_blank(expanded(e).0.segments),
        expanded(e).0.text == e.text,
        expanded(e).0.current == e.current,
{
    let c = e.current;
    if c + 1 < e.segments.len() && e.segments[c + 1].reading.len() > 0 {
        let own = e.segments[c].reading;
        let taken = e.segments[c + 1].reading;
        let s = expanded_segments(e).segments;
        lemma_spelled_at_two(e.segments, c);
        assert(s.take(c) =~= e.segments.take(c));
        if taken.len() == 1 {
            lemma_spelled_at(s, c);
            assert(s.skip(c + 1) =~= e.segments.skip(c + 2));
            assert(s[c].reading =~= own + taken);
        } else {
            lemma_spelled_at_two(s, c);
            assert(s.skip(c + 2) =~= e.segments.skip(c + 2));
            assert(s[c].reading + s[c + 1].reading =~= own + taken);
        }
        if none_blank(e.segments) {
            assert forall|i: int| 0 <= i < s.len() implies (#[trigger] s[i]).reading.len() > 0 by {
                if i < c {
                    assert(s[i] == e.segments[i]);
                } else if i > c + 1 {
                    assert(s[i] == e.segments[i] || s[i] == e.segments[i + 1]);
                } else if i == c + 1 && taken.len() == 1 {
                    assert(s[i] == e.segments[i + 1]);
                }
            }
        }
    }
}

/// Expanding a segment that has just been shrunk gives the readings from before.
pub proof fn law_expand_undoes_shrink(e: EngineView)
    requires
        e.wf(),
        e.state is Conversion,
        none_blank(e.segments),
        e.segments[e.current].reading.len() > 1,
    ensures
        readings(expanded(shrunk(e).0).0.segments) == readings(e.segments),
{
    let c = e.current;
    let f = shrunk(e).0;
    let g = expanded(f).0;
    let own = e.segments[c].reading;
    assert(f.segments == shrunk_segments(e).segments);
    assert(f.segments[c + 1].reading.first() == own.last());
    assert(own.drop_last().push(own.last()) =~= own);
    if c + 1 < e.segments.len() {
        let next = e.segments[c + 1].reading;
        assert(f.segments[c + 1].reading.drop_first() =~= next);
    } else {
        assert(f.segments[c + 1].reading.drop_first() =~= Seq::empty());
    }
    assert(g.segments == expanded_segments(f).segments);
    assert(readings(g.segments) =~= readings(e.segments));
}

/// Shrinking a segment that has just been expanded gives the readings from before,
/// unless the next segment was used up and others stand behind it.
pub proof fn law_shrink_undoes_expand(e: EngineView)
    requires
        e.wf(),
        e.state is Conversion,
        none_blank(e.segments),
        e.current + 1 < e.segments.len(),
        e.segments[e.current + 1].reading.len() > 1 || e.current + 2 == e.segments.len(),
    ensures
        readings(shrunk(expanded(e).0).0.segments) == readings(e.segments),
{
    let c = e.current;
    let own = e.segments[c].reading;
    let next = e.segments[c + 1].reading;
    let f = expanded(e).0;
    let g = shrunk(f).0;
    assert(f.segments == expanded_segments(e).segments);
    assert(f.segments[c].reading == own.push(next.first()));
    assert(own.push(next.first()).drop_last() =~= own);
    assert(g.segments == shrunk_segments(f).segments);
    if next.len() > 1 {
        assert(seq![next.first()] + next.drop_first() =~= next);
    } else {
        assert(seq![next.first()] =~= next);
    }
    assert(readings(g.segments) =~= readings(e.segments));
}

/// Moving the focus to the next segment and back leaves the engine as it was, and so
/// does moving it to the one before and back.
pub proof fn law_focus_moves_back(e: EngineView)
    requires
        e.wf(),
        e.state is Conversion,
        in_step(e),
    ensures
        e.current + 1 < e.segments.len() ==> moved_left(moved_right(e).0).0 == e,
        e.current > 0 ==> moved_right(moved_left(e).0).0 == e,
{
    if e.current + 1 < e.segments.len() {
        assert(moved_left(moved_right(e).0).0 =~= segments_applied(e));
    }
    if e.current > 0 {
        assert(moved_right(moved_left(e).0).0 =~= segments_applied(e));
    }
}

/// The preedit of a conversion shows the texts of the segments, one behind the other.
pub proof fn lemma_parts_joined(segments: Seq<SegmentView>, current: int, n: int)
    requires
        0 <= n <= segments.len(),
    ensures
        preedit::joined(preedit_parts(segments, current).take(n)) == commit::committed_text(
            segments.take(n),
        ),
    decreases n,
{
    let parts = preedit_parts(segments, current);
    if n == 0 {
        assert(parts.take(0) =~= Seq::empty());
        assert(segments.take(0) =~= Seq::empty());
        assert(preedit::joined(parts.take(0)) =~= commit::committed_text(segments.take(0)));
    } else {
        lemma_parts_joined(segments, current, n - 1);
        assert(parts.take(n).drop_last() =~= parts.take(n - 1));
        assert(segments.take(n).drop_last() =~= segments.take(n - 1));
        assert(parts.take(n).last() == parts[n - 1]);
    }
}

/// Conversions start in step.
pub proof fn lemma_entered_in_step(e: EngineView, reading: Seq<char>, l: ListView)
    requires
        e.text == reading,
        reading.len() > 0,
    ensures
        in_step(conversion::entered(e, reading, l)),
{
    let f = conversion::entered(e, reading, l);
    let s = SegmentView { reading, candidates: l };
    lemma_spelled_one(s);
    let p = segments_preedit(f.segments, 0);
    let q = PreeditView::highlighted(l.text_or(reading));
    assert(p.segments =~= q.segments);
    let parts = preedit_parts(f.segments, 0);
    assert(parts_to_caret(f.segments, 0) =~= parts);
    assert(parts.drop_last() =~= Seq::empty());
    assert(preedit::joined(parts.drop_last()) =~= Seq::empty());
    assert(preedit::joined(parts) =~= s.text());
    assert(p =~= q);
    assert(segments_applied(f) =~= f);
}

/// Segments with the same readings spell the same.
pub proof fn lemma_spelled_same(a: Seq<SegmentView>, b: Seq<SegmentView>)
    requires
        a.len() == b.len(),
        forall|i: int| 0 <= i < a.len() ==> (#[trigger] a[i]).reading == b[i].reading,
    ensures
        spelled(a) == spelled(b),
        none_blank(a) == none_blank(b),
    decreases a.len(),
{
    if a.len() > 0 {
        assert forall|i: int| 0 <= i < a.len() - 1 implies (
        #[trigger] a.drop_last()[i]).reading == b.drop_last()[i].reading by {
            assert(a[i].reading == b[i].reading);
        }
        lemma_spelled_same(a.drop_last(), b.drop_last());
        assert(a[a.len() - 1].reading == b[a.len() - 1].reading);
    }
    if none_blank(b) {
        assert forall|i: int| 0 <= i < a.len() implies (#[trigger] a[i]).reading.len() > 0 by {
            assert(b[i].reading.len() > 0);
        }
    }
    if none_blank(a) {
        assert forall|i: int| 0 <= i < b.len() implies (#[trigger] b[i]).reading.len() > 0 by {
            assert(a[i].reading.len() > 0);
        }
    }
}

/// The state that the segments give does not depend on the state before.
pub proof fn lemma_applied_twice(e: EngineView)
    ensures
        segments_applied(segments_applied(e)) == segments_applied(e),
{
}

} // verus!
