//! Converting a reading: starting, walking through the candidates, committing and
//! cancelling.
use super::candidate;
use super::candidate::{
    show_all, AnnotatedCandidate, AnnotatedView, CandidateList, CandidateSource, ListView,
    DEFAULT_PAGE_SIZE,
};
use super::collect;
use super::composing;
use super::fuzzy;
use super::input_method::{EngineView, InputMethodEngine};
use super::preedit::{Preedit, PreeditView};
use super::segments;
use super::state;
use super::state::{
    ActionView, ConversionSegment, EngineAction, EngineResult, InputMode, InputState, ResultView,
    SegmentView, StateView,
};
use crate::distinct;
use crate::distinct::Keyed;
use crate::romaji::converter::RomajiView;
use crate::text;
use crate::text::{contains_ascii_letter, same_text, to_decimal};
use vstd::prelude::*;

verus! {

/// How many pages a list has.
pub open spec fn page_count(l: ListView) -> nat {
    l.candidates.len() / DEFAULT_PAGE_SIZE as nat + if l.candidates.len() % (
    DEFAULT_PAGE_SIZE as nat) > 0 {
        1nat
    } else {
        0nat
    }
}

/// The number of the current page, from 1.
pub open spec fn page_number(l: ListView) -> nat {
    l.cursor as nat / DEFAULT_PAGE_SIZE as nat + 1
}

/// The auxiliary text for a conversion: the reading, the page, and where the selected
/// candidate comes from.
pub open spec fn aux_text(reading: Seq<char>, l: ListView) -> Seq<char> {
    let page = reading + " ["@ + text::decimal(page_number(l)) + "/"@ + text::decimal(
        page_count(l),
    ) + "]"@;
    match l.selected() {
        Some(c) => match c.source_label {
            Some(label) => page + " "@ + label,
            None => page,
        },
        None => page,
    }
}

/// What is reported when a list of candidates is shown.
pub open spec fn conversion_result(p: PreeditView, reading: Seq<char>, l: ListView) -> ResultView {
    ResultView::consumed(
        seq![
            ActionView::UpdatePreedit(p),
            ActionView::ShowCandidates(l),
            ActionView::UpdateAuxText(aux_text(reading, l)),
        ],
    )
}

/// The engine after a conversion was entered.
pub open spec fn entered(e: EngineView, reading: Seq<char>, l: ListView) -> EngineView {
    EngineView {
        segments: seq![SegmentView { reading, candidates: l }],
        current: 0,
        state: StateView::Conversion {
            preedit: PreeditView::highlighted(l.text_or(reading)),
            candidates: l,
        },
        ..e
    }
}

/// What is reported when a conversion is entered.
pub open spec fn entered_result(reading: Seq<char>, l: ListView) -> ResultView {
    conversion_result(PreeditView::highlighted(l.text_or(reading)), reading, l)
}

/// The engine when a conversion starts: nothing pending, no live conversion, the
/// caret at the front.
pub open spec fn conversion_begun(e: EngineView) -> EngineView {
    EngineView { live: Seq::empty(), romaji: RomajiView::empty(), cursor: 0, ..e }
}

/// The reading has letters that are worth repairing.
pub open spec fn wants_repair(e: EngineView, skip_learning: bool) -> bool {
    !skip_learning && e.sources.config.fuzzy_repair_enabled && text::has_ascii_letter(e.text)
        && fuzzy::fuzzy_repairs(e).len() > 0
}

/// The candidates with the live conversion in front, unless it is among them or is
/// the reading itself.
pub open spec fn with_live(
    list: Seq<AnnotatedView>,
    live: Seq<char>,
    reading: Seq<char>,
) -> Seq<AnnotatedView> {
    if live.len() > 0 && live != reading && !distinct::has_key(list, live) {
        seq![AnnotatedView::plain(live, CandidateSource::Model)] + list
    } else {
        list
    }
}

/// The place of the first candidate that a model gave; the length if there is none.
pub open spec fn first_model(list: Seq<AnnotatedView>) -> int
    decreases list.len(),
{
    if list.len() == 0 || list[0].source == CandidateSource::Model {
        0
    } else {
        1 + first_model(list.drop_first())
    }
}

/// The place of the first candidate with this text that a model gave; the length if
/// there is none.
pub open spec fn model_place(list: Seq<AnnotatedView>, t: Seq<char>) -> int
    decreases list.len(),
{
    if list.len() == 0 || (list[0].source == CandidateSource::Model && list[0].text == t) {
        0
    } else {
        1 + model_place(list.drop_first(), t)
    }
}

/// The candidates with the live conversion, if a model gave it, in front of all others
/// that a model gave.
pub open spec fn live_first(
    list: Seq<AnnotatedView>,
    live: Seq<char>,
    reading: Seq<char>,
) -> Seq<AnnotatedView> {
    let place = model_place(list, live);
    if live.len() > 0 && live != reading && place < list.len() {
        list.remove(place).insert(first_model(list), list[place])
    } else {
        list
    }
}

/// The candidates of `list` whose text is not among `others`.
pub open spec fn not_among(list: Seq<AnnotatedView>, others: Seq<AnnotatedView>) -> Seq<
    AnnotatedView,
>
    decreases list.len(),
{
    if list.len() == 0 {
        Seq::empty()
    } else if distinct::has_key(others, list.last().text) {
        not_among(list.drop_last(), others)
    } else {
        not_among(list.drop_last(), others).push(list.last())
    }
}

/// The normal candidates of a conversion that has begun.
pub open spec fn normal_candidates(e: EngineView, live: Seq<char>, skip_learning: bool) -> Seq<
    AnnotatedView,
> {
    with_live(
        collect::candidates_for(e, e.text, e.sources.config.num_candidates, skip_learning),
        live,
        e.text,
    )
}

/// The candidates of a conversion that has begun: repairs of the reading, if there
/// are any, and then the normal ones.
pub open spec fn merged_candidates(e: EngineView, live: Seq<char>, skip_learning: bool) -> Seq<
    AnnotatedView,
> {
    let normal = normal_candidates(e, live, skip_learning);
    let asked = collect::asked(e, e.text, e.sources.config.num_candidates);
    let repairs = fuzzy::kana_repairs(asked, normal);
    if !skip_learning && repairs.len() > 0 {
        repairs + not_among(normal, repairs)
    } else {
        normal
    }
}

/// All candidates of a conversion that has begun, with the live conversion as the
/// first of those that a model gave.
pub open spec fn all_candidates(e: EngineView, live: Seq<char>, skip_learning: bool) -> Seq<
    AnnotatedView,
> {
    live_first(merged_candidates(e, live, skip_learning), live, e.text)
}

/// The engine after all candidates have been built.
pub open spec fn after_candidates(e: EngineView, live: Seq<char>, skip_learning: bool) -> EngineView {
    let asked = collect::asked(e, e.text, e.sources.config.num_candidates);
    if skip_learning {
        asked
    } else {
        fuzzy::after_kana_repairs(asked, normal_candidates(e, live, skip_learning))
    }
}

/// The engine after the candidates of a conversion that has begun were built, and
/// what is reported. Without candidates the reading stays as it is.
pub open spec fn converted(e: EngineView, live: Seq<char>, skip_learning: bool) -> (
    EngineView,
    ResultView,
) {
    let list = all_candidates(e, live, skip_learning);
    let done = after_candidates(e, live, skip_learning);
    if list.len() == 0 {
        let p = PreeditView::underlined(e.text, e.text.len() as int);
        (
            EngineView {
                state: StateView::Composing { preedit: p, romaji_buffer: Seq::empty() },
                ..done
            },
            ResultView::consumed(seq![ActionView::UpdatePreedit(p)]),
        )
    } else {
        let l = ListView { candidates: candidate::shown_all(list, e.text), cursor: 0 };
        (entered(done, e.text, l), entered_result(e.text, l))
    }
}

/// The repairs of the text that has been typed, with the live conversion as the first
/// of those that a model gave, if it is among them.
pub open spec fn offered_repairs(e: EngineView) -> Seq<AnnotatedView> {
    live_first(fuzzy::fuzzy_repairs(e), e.live, e.text)
}

/// The engine after the repairs of its text were offered, and what is reported.
pub open spec fn repaired(e: EngineView) -> (EngineView, ResultView) {
    let l = ListView { candidates: candidate::shown_all(offered_repairs(e), e.text), cursor: 0 };
    (
        entered(conversion_begun(fuzzy::after_fuzzy_repairs(e)), e.text, l),
        entered_result(e.text, l),
    )
}

/// The candidates that a conversion offers when it is started.
pub open spec fn offered(e: EngineView, skip_learning: bool) -> Seq<AnnotatedView> {
    let f = composing::flushed(e);
    if wants_repair(f, skip_learning) {
        offered_repairs(f)
    } else {
        all_candidates(conversion_begun(f), f.live, skip_learning)
    }
}

/// The engine after a conversion was started, and what is reported.
pub open spec fn started(e: EngineView, skip_learning: bool) -> (EngineView, ResultView) {
    let f = composing::flushed(e);
    if wants_repair(f, skip_learning) {
        repaired(f)
    } else if f.text.len() == 0 {
        (conversion_begun(f), ResultView::consumed(Seq::empty()))
    } else {
        converted(conversion_begun(f), f.live, skip_learning)
    }
}

proof fn lemma_with_kana_keeps(list: Seq<AnnotatedView>, hyps: Seq<crate::romaji::fuzzy::HypothesisView>)
    ensures
        fuzzy::with_kana(list, hyps).len() >= list.len(),
        hyps.len() > 0 ==> fuzzy::with_kana(list, hyps).len() > 0,
    decreases hyps.len(),
{
    if hyps.len() > 0 {
        lemma_with_kana_keeps(list, hyps.drop_last());
    }
}

/// Where no repair is offered, nothing was tried.
proof fn lemma_no_repairs(e: EngineView)
    requires
        fuzzy::fuzzy_repairs(e).len() == 0,
    ensures
        fuzzy::after_fuzzy_repairs(e) == e,
{
    let hyps = fuzzy::typed_hypotheses(e);
    let found = fuzzy::found_for(e, hyps);
    lemma_with_kana_keeps(
        fuzzy::with_models(e.sources, e.model, found, fuzzy::readings_to_convert(hyps, found)),
        hyps,
    );
    assert(fuzzy::readings_of(hyps) =~= Seq::empty());
    assert(fuzzy::readings_to_convert(hyps, found) =~= Seq::empty());
}

fn find_text(list: &Vec<AnnotatedCandidate>, t: &str) -> (r: bool)
    ensures
        r == distinct::has_key(candidate::annotated_views(list@), t@),
{
    let ghost all = candidate::annotated_views(list@);
    let mut i: usize = 0;
    while i < list.len()
        invariant
            i <= list.len(),
            all == candidate::annotated_views(list@),
            forall|j: int| 0 <= j < i ==> (#[trigger] all[j]).key() != t@,
        decreases list.len() - i,
    {
        if same_text(list[i].text.as_str(), t) {
            assert(all[i as int].key() == t@);
            return true;
        }
        i += 1;
    }
    false
}

/// Puts `repairs` in front of those of `list` that are not among them.
fn put_in_front(repairs: Vec<AnnotatedCandidate>, list: &Vec<AnnotatedCandidate>) -> (r: Vec<
    AnnotatedCandidate,
>)
    ensures
        candidate::annotated_views(r@) == candidate::annotated_views(repairs@) + not_among(
            candidate::annotated_views(list@),
            candidate::annotated_views(repairs@),
        ),
{
    let ghost front = candidate::annotated_views(repairs@);
    let ghost all = candidate::annotated_views(list@);
    let mut rest: Vec<AnnotatedCandidate> = Vec::new();
    let mut i: usize = 0;
    assert(all.take(0) =~= Seq::empty());
    assert(candidate::annotated_views(rest@) =~= Seq::empty());
    while i < list.len()
        invariant
            i <= list.len(),
            front == candidate::annotated_views(repairs@),
            all == candidate::annotated_views(list@),
            candidate::annotated_views(rest@) == not_among(all.take(i as int), front),
        decreases list.len() - i,
    {
        assert(all.take(i + 1).drop_last() =~= all.take(i as int));
        assert(all.take(i + 1).last() == list@[i as int]@);
        if !find_text(&repairs, list[i].text.as_str()) {
            let ghost before = candidate::annotated_views(rest@);
            let c = list[i].clone();
            rest.push(c);
            assert(candidate::annotated_views(rest@) =~= before.push(c@));
        }
        i += 1;
    }
    assert(all.take(i as int) =~= all);
    let mut r = repairs;
    let ghost tail = candidate::annotated_views(rest@);
    r.append(&mut rest);
    assert(candidate::annotated_views(r@) =~= front + tail);
    r
}

proof fn lemma_first_model_at(list: Seq<AnnotatedView>, i: int)
    requires
        0 <= i <= list.len(),
        forall|j: int| 0 <= j < i ==> (#[trigger] list[j]).source != CandidateSource::Model,
        i < list.len() ==> list[i].source == CandidateSource::Model,
    ensures
        first_model(list) == i,
    decreases list.len(),
{
    if i > 0 {
        assert(list[0].source != CandidateSource::Model);
        let rest = list.drop_first();
        assert forall|j: int| 0 <= j < i - 1 implies (#[trigger] rest[j]).source
            != CandidateSource::Model by {
            assert(list[j + 1].source != CandidateSource::Model);
        }
        lemma_first_model_at(rest, i - 1);
    }
}

/// A model gave this candidate, with this text.
spec fn is_live(c: AnnotatedView, t: Seq<char>) -> bool {
    c.source == CandidateSource::Model && c.text == t
}

proof fn lemma_model_place_at(list: Seq<AnnotatedView>, t: Seq<char>, i: int)
    requires
        0 <= i <= list.len(),
        forall|j: int| 0 <= j < i ==> !is_live(#[trigger] list[j], t),
        i < list.len() ==> is_live(list[i], t),
    ensures
        model_place(list, t) == i,
    decreases list.len(),
{
    if i > 0 {
        assert(!is_live(list[0], t));
        let rest = list.drop_first();
        assert forall|j: int| 0 <= j < i - 1 implies !is_live(#[trigger] rest[j], t) by {
            assert(!is_live(list[j + 1], t));
        }
        lemma_model_place_at(rest, t, i - 1);
    }
}

/// What the two places are.
proof fn lemma_places(list: Seq<AnnotatedView>, t: Seq<char>)
    ensures
        0 <= first_model(list) <= model_place(list, t) <= list.len(),
        forall|j: int|
            0 <= j < first_model(list) ==> (#[trigger] list[j]).source != CandidateSource::Model,
        forall|j: int| 0 <= j < model_place(list, t) ==> !is_live(#[trigger] list[j], t),
        model_place(list, t) < list.len() ==> is_live(list[model_place(list, t)], t),
    decreases list.len(),
{
    if list.len() > 0 {
        let rest = list.drop_first();
        lemma_places(rest, t);
        assert forall|j: int| 0 <= j < first_model(list) implies (#[trigger] list[j]).source
            != CandidateSource::Model by {
            if j > 0 {
                assert(rest[j - 1].source != CandidateSource::Model);
            }
        }
        assert forall|j: int| 0 <= j < model_place(list, t) implies !is_live(
            #[trigger] list[j],
            t,
        ) by {
            if j > 0 {
                assert(!is_live(rest[j - 1], t));
            }
        }
    }
}

/// Moves the live conversion, if a model gave it, in front of all others that a model
/// gave.
fn put_live_first(list: &mut Vec<AnnotatedCandidate>, live: &String, reading: &String)
    ensures
        candidate::annotated_views(final(list)@) == live_first(
            candidate::annotated_views(old(list)@),
            live@,
            reading@,
        ),
{
    let ghost before = list@;
    let ghost all = candidate::annotated_views(list@);
    if live.as_str().is_empty() || *live == *reading {
        return ;
    }
    let mut first: usize = 0;
    while first < list.len() && list[first].source != CandidateSource::Model
        invariant
            first <= list.len(),
            all == candidate::annotated_views(list@),
            forall|j: int| 0 <= j < first ==> (#[trigger] all[j]).source != CandidateSource::Model,
        decreases list.len() - first,
    {
        assert(all[first as int].source == list@[first as int].source);
        first += 1;
    }
    proof {
        if first < list.len() {
            assert(all[first as int].source == list@[first as int].source);
        }
        lemma_first_model_at(all, first as int);
    }
    let mut place: usize = 0;
    while place < list.len() && !(list[place].source == CandidateSource::Model && same_text(
        list[place].text.as_str(),
        live.as_str(),
    ))
        invariant
            place <= list.len(),
            all == candidate::annotated_views(list@),
            forall|j: int| 0 <= j < place ==> !is_live(#[trigger] all[j], live@),
        decreases list.len() - place,
    {
        assert(all[place as int] == list@[place as int]@);
        place += 1;
    }
    proof {
        if place < list.len() {
            assert(all[place as int] == list@[place as int]@);
        }
        lemma_model_place_at(all, live@, place as int);
        lemma_places(all, live@);
    }
    if place < list.len() {
        let c = list.remove(place);
        list.insert(first, c);
        assert(candidate::annotated_views(list@) =~= all.remove(place as int).insert(
            first as int,
            all[place as int],
        ));
    }
}

impl InputMethodEngine {
    /// The auxiliary text for a conversion: the reading and, for a list of
    /// candidates, the page and where the selected one comes from.
    pub fn format_aux_conversion_with_page(
        &self,
        reading: &str,
        candidates: Option<&CandidateList>,
    ) -> (r: String)
        ensures
            match candidates {
                Some(l) => r@ == aux_text(reading@, l@),
                None => r@ == reading@,
            },
    {
        let mut r = reading.to_owned();
        let l = match candidates {
            None => {
                return r;
            },
            Some(l) => l,
        };
        let page = l.cursor() / DEFAULT_PAGE_SIZE + 1;
        let count = l.len() / DEFAULT_PAGE_SIZE + if l.len() % DEFAULT_PAGE_SIZE > 0 {
            1usize
        } else {
            0usize
        };
        r.append(" [");
        r.append(to_decimal(page).as_str());
        r.append("/");
        r.append(to_decimal(count).as_str());
        r.append("]");
        if let Some(c) = l.selected() {
            if let Some(label) = &c.source_label {
                r.append(" ");
                r.append(label.as_str());
            }
        }
        r
    }

    /// Enters a conversion of `reading` with these candidates.
    pub fn enter_conversion_state(&mut self, reading: &str, candidates: CandidateList) -> (r: EngineResult)
        ensures
            final(self)@ == entered(old(self)@, reading@, candidates@),
            r@ == entered_result(reading@, candidates@),
    {
        let ghost start = self@;
        self.segments = vec![
            ConversionSegment { reading: reading.to_owned(), candidates: candidates.clone() },
        ];
        self.current_segment = 0;
        let selected_text = match candidates.selected_text() {
            Some(t) => t.to_owned(),
            None => reading.to_owned(),
        };
        let preedit = Preedit::with_text_highlighted(selected_text.as_str());
        self.state = InputState::Conversion {
            preedit: preedit.clone(),
            candidates: candidates.clone(),
        };
        let aux = self.format_aux_conversion_with_page(reading, Some(&candidates));
        let r = EngineResult::consumed().with_action(
            EngineAction::UpdatePreedit(preedit),
        ).with_action(EngineAction::ShowCandidates(candidates)).with_action(
            EngineAction::UpdateAuxText(aux),
        );
        assert(state::segment_views(self.segments@) =~= seq![
            SegmentView { reading: reading@, candidates: candidates@ },
        ]);
        assert(self@ =~= entered(start, reading@, candidates@));
        assert(r@ =~= entered_result(reading@, candidates@));
        r
    }

    /// Builds the candidates of a conversion that has begun and enters it.
    fn convert_reading(&mut self, live: &String, skip_learning: bool) -> (r: EngineResult)
        requires
            old(self)@.text.len() > 0,
        ensures
            final(self)@ == converted(old(self)@, live@, skip_learning).0,
            r@ == converted(old(self)@, live@, skip_learning).1,
    {
        let ghost g = self@;
        let reading = self.input_buf.text.clone();
        let n = self.config.num_candidates;
        let mut candidates = self.build_conversion_candidates(reading.as_str(), n, skip_learning);
        let ghost built = candidate::annotated_views(candidates@);
        if !live.as_str().is_empty() && *live != reading && !find_text(&candidates, live.as_str()) {
            let c = AnnotatedCandidate::new(live.clone(), CandidateSource::Model);
            candidates.insert(0, c);
            assert(candidate::annotated_views(candidates@) =~= seq![c@] + built);
        }
        let ghost normal = candidate::annotated_views(candidates@);
        assert(normal == normal_candidates(g, live@, skip_learning));
        if !skip_learning {
            let repairs = self.kana_repair_candidates(&candidates);
            assert(repairs.len() == candidate::annotated_views(repairs@).len());
            if repairs.len() > 0 {
                candidates = put_in_front(repairs, &candidates);
            }
        }
        assert(candidate::annotated_views(candidates@) == merged_candidates(
            g,
            live@,
            skip_learning,
        ));
        put_live_first(&mut candidates, live, &reading);
        assert(candidate::annotated_views(candidates@) == all_candidates(g, live@, skip_learning));
        assert(self@ == after_candidates(g, live@, skip_learning));
        assert(candidates.len() == candidate::annotated_views(candidates@).len());
        if candidates.len() == 0 {
            let preedit = Preedit::with_text_underlined(reading.as_str());
            self.state = InputState::Composing {
                preedit: preedit.clone(),
                romaji_buffer: String::new(),
            };
            let r = EngineResult::consumed().with_action(EngineAction::UpdatePreedit(preedit));
            assert(r@ =~= ResultView::consumed(
                seq![
                    ActionView::UpdatePreedit(
                        PreeditView::underlined(reading@, reading@.len() as int),
                    ),
                ],
            ));
            return r;
        }
        let list = show_all(&candidates, reading.as_str());
        self.enter_conversion_state(reading.as_str(), list)
    }

    /// Starts a conversion of what has been typed. Letters that did not become kana
    /// are taken as slips, and repairs are offered if there are any. Otherwise the
    /// candidates are those of the reading; the live conversion is kept among them as
    /// the first that a model gave, and repairs come first where the reading does not
    /// seem to mean anything.
    /// `skip_learning` leaves out the learning cache and repairs.
    pub fn start_conversion(&mut self, skip_learning: bool) -> (r: EngineResult)
        requires
            0 <= old(self)@.cursor <= old(self)@.text.len(),
        ensures
            final(self)@ == started(old(self)@, skip_learning).0,
            r@ == started(old(self)@, skip_learning).1,
    {
        self.flush_romaji_to_composed();
        let ghost f = self@;
        let reading = self.input_buf.text.clone();
        if !skip_learning && self.config.fuzzy_repair_enabled && contains_ascii_letter(
            reading.as_str(),
        ) {
            let mut repairs = self.fuzzy_repair_candidates();
            assert(repairs.len() == candidate::annotated_views(repairs@).len());
            if repairs.len() > 0 {
                put_live_first(&mut repairs, &self.live.text, &reading);
                self.live.text = String::new();
                self.converters.romaji.reset();
                self.input_buf.cursor_pos = 0;
                let list = show_all(&repairs, reading.as_str());
                assert(self@ =~= conversion_begun(fuzzy::after_fuzzy_repairs(f)));
                return self.enter_conversion_state(reading.as_str(), list);
            }
            proof {
                lemma_no_repairs(f);
            }
        }
        let live = self.live.text.clone();
        self.live.text = String::new();
        self.converters.romaji.reset();
        self.input_buf.cursor_pos = 0;
        let ghost g = conversion_begun(f);
        assert(self@ =~= g);
        if reading.as_str().is_empty() {
            return EngineResult::consumed();
        }
        self.convert_reading(&live, skip_learning)
    }
}

pub proof fn lemma_started_wf(e: EngineView, skip_learning: bool)
    requires
        e.wf(),
        !(e.state is Conversion),
    ensures
        started(e, skip_learning).0.wf(),
{
    let f = composing::flushed(e);
    let g = conversion_begun(f);
    if wants_repair(f, skip_learning) {
        assert(fuzzy::after_fuzzy_repairs(f) == (EngineView {
            model: fuzzy::after_fuzzy_repairs(f).model,
            ..f
        }));
    } else if f.text.len() == 0 {
        assert(g.wf());
    } else {
        let done = after_candidates(g, f.live, skip_learning);
        assert(done == (EngineView { model: done.model, ..g }));
    }
}

proof fn lemma_not_among(list: Seq<AnnotatedView>, others: Seq<AnnotatedView>)
    requires
        distinct::all_distinct(list),
    ensures
        distinct::all_distinct(not_among(list, others)),
        forall|i: int|
            0 <= i < not_among(list, others).len() ==> !distinct::has_key(
                others,
                (#[trigger] not_among(list, others)[i]).key(),
            ) && distinct::has_key(list, not_among(list, others)[i].key()),
        forall|i: int|
            0 <= i < list.len() ==> distinct::has_key(others, (#[trigger] list[i]).key())
                || distinct::has_key(not_among(list, others), list[i].key()),
    decreases list.len(),
{
    if list.len() > 0 {
        let shorter = list.drop_last();
        let x = list.last();
        lemma_not_among(shorter, others);
        let before = not_among(shorter, others);
        let after = not_among(list, others);
        assert forall|i: int| 0 <= i < before.len() implies distinct::has_key(
            list,
            (#[trigger] before[i]).key(),
        ) && before[i].key() != x.key() by {
            let k = before[i].key();
            let j = choose|j: int| 0 <= j < shorter.len() && (#[trigger] shorter[j]).key() == k;
            assert(list[j].key() == k);
            assert(list[list.len() - 1].key() != list[j].key());
        }
        if distinct::has_key(others, x.key()) {
            assert(after == before);
        } else {
            assert(after == before.push(x));
            assert(list[list.len() - 1].key() == x.key());
        }
        assert forall|i: int| 0 <= i < list.len() implies distinct::has_key(
            others,
            (#[trigger] list[i]).key(),
        ) || distinct::has_key(after, list[i].key()) by {
            let k = list[i].key();
            if i < shorter.len() {
                assert(shorter[i] == list[i]);
                if distinct::has_key(before, k) {
                    let j = choose|j: int|
                        0 <= j < before.len() && (#[trigger] before[j]).key() == k;
                    assert(after[j].key() == k);
                }
            } else if !distinct::has_key(others, k) {
                assert(after[before.len() as int].key() == k);
            }
        }
    }
}

proof fn lemma_has_key_right<T: Keyed>(a: Seq<T>, b: Seq<T>, k: Seq<char>)
    requires
        distinct::has_key(a, k) || distinct::has_key(b, k),
    ensures
        distinct::has_key(a + b, k),
{
    if distinct::has_key(a, k) {
        let i = choose|i: int| 0 <= i < a.len() && (#[trigger] a[i]).key() == k;
        assert((a + b)[i].key() == k);
    } else {
        let i = choose|i: int| 0 <= i < b.len() && (#[trigger] b[i]).key() == k;
        assert((a + b)[a.len() + i].key() == k);
    }
}

proof fn lemma_normal(e: EngineView, live: Seq<char>, skip_learning: bool)
    ensures
        distinct::all_distinct(normal_candidates(e, live, skip_learning)),
        forall|k: Seq<char>|
            distinct::has_key(
                collect::candidates_for(
                    e,
                    e.text,
                    e.sources.config.num_candidates,
                    skip_learning,
                ),
                k,
            ) ==> #[trigger] distinct::has_key(normal_candidates(e, live, skip_learning), k),
        live.len() > 0 && live != e.text ==> distinct::has_key(
            normal_candidates(e, live, skip_learning),
            live,
        ),
{
    let n = e.sources.config.num_candidates;
    let list = collect::candidates_for(e, e.text, n, skip_learning);
    let normal = normal_candidates(e, live, skip_learning);
    collect::law_candidates_distinct(e, e.text, n, skip_learning);
    if live.len() > 0 && live != e.text && !distinct::has_key(list, live) {
        let top = AnnotatedView::plain(live, CandidateSource::Model);
        assert(normal == seq![top] + list);
        assert(normal[0].key() == live);
        assert forall|i: int, j: int| 0 <= i < j < normal.len() implies (
        #[trigger] normal[i]).key() != (#[trigger] normal[j]).key() by {
            assert(normal[j] == list[j - 1]);
            if i > 0 {
                assert(normal[i] == list[i - 1]);
            }
        }
        assert forall|k: Seq<char>| distinct::has_key(list, k) implies
            #[trigger] distinct::has_key(normal, k) by {
            lemma_has_key_right(seq![top], list, k);
        }
    }
}

/// Moving the live conversion keeps the texts, and nothing that a model gave stands
/// before it.
proof fn lemma_live_first(list: Seq<AnnotatedView>, live: Seq<char>, reading: Seq<char>)
    requires
        distinct::all_distinct(list),
    ensures
        live_first(list, live, reading).len() == list.len(),
        distinct::all_distinct(live_first(list, live, reading)),
        forall|k: Seq<char>|
            distinct::has_key(list, k) ==> #[trigger] distinct::has_key(
                live_first(list, live, reading),
                k,
            ),
        live.len() > 0 && live != reading ==> live_leads(live_first(list, live, reading), live),
{
    let all = live_first(list, live, reading);
    let place = model_place(list, live);
    let first = first_model(list);
    lemma_places(list, live);
    if live.len() > 0 && live != reading {
        if place < list.len() {
            assert forall|i: int| 0 <= i < all.len() implies #[trigger] all[i] == list[moved_from(
                i,
                first,
                place,
            )] by {}
            assert forall|i: int, j: int| 0 <= i < j < all.len() implies (
            #[trigger] all[i]).key() != (#[trigger] all[j]).key() by {
                let a = moved_from(i, first, place);
                let b = moved_from(j, first, place);
                assert(list[a].key() != list[b].key());
            }
            assert forall|k: Seq<char>| distinct::has_key(list, k) implies
                #[trigger] distinct::has_key(all, k) by {
                let i = choose|i: int| 0 <= i < list.len() && (#[trigger] list[i]).key() == k;
                let j: int = if i == place {
                    first
                } else if first <= i < place {
                    i + 1
                } else {
                    i
                };
                assert(all[j] == list[i]);
            }
            assert forall|i: int, j: int|
                0 <= j < i < all.len() && (#[trigger] all[i]).source == CandidateSource::Model
                    && all[i].text == live implies (#[trigger] all[j]).source
                != CandidateSource::Model by {
                assert(all[first].key() == live);
                if i != first {
                    assert(all[i].key() == live);
                }
                assert(all[j] == list[j]);
            }
        } else {
            assert forall|i: int, j: int|
                0 <= j < i < all.len() && (#[trigger] all[i]).source == CandidateSource::Model
                    && all[i].text == live implies (#[trigger] all[j]).source
                != CandidateSource::Model by {
                assert(is_live(list[i], live));
            }
        }
    }
}

/// Where the candidate at `i` stood before the one at `place` was moved to `first`.
spec fn moved_from(i: int, first: int, place: int) -> int {
    if i == first {
        place
    } else if first < i <= place {
        i - 1
    } else {
        i
    }
}

/// If a model gave the live conversion, nothing else that a model gave stands before
/// it.
pub open spec fn live_leads(list: Seq<AnnotatedView>, live: Seq<char>) -> bool {
    forall|i: int, j: int|
        0 <= j < i < list.len() && (#[trigger] list[i]).source == CandidateSource::Model
            && list[i].text == live ==> (#[trigger] list[j]).source != CandidateSource::Model
}

/// Repairs in front hide none of the texts that are offered without them.
pub proof fn law_repairs_hide_nothing(e: EngineView, live: Seq<char>, skip_learning: bool, k: Seq<char>)
    requires
        distinct::has_key(normal_candidates(e, live, skip_learning), k),
    ensures
        distinct::has_key(all_candidates(e, live, skip_learning), k),
{
    let normal = normal_candidates(e, live, skip_learning);
    let asked = collect::asked(e, e.text, e.sources.config.num_candidates);
    let repairs = fuzzy::kana_repairs(asked, normal);
    lemma_normal(e, live, skip_learning);
    lemma_not_among(normal, repairs);
    let i = choose|i: int| 0 <= i < normal.len() && (#[trigger] normal[i]).key() == k;
    if !skip_learning && repairs.len() > 0 {
        lemma_has_key_right(repairs, not_among(normal, repairs), k);
    }
    lemma_merged_distinct(e, live, skip_learning);
    lemma_live_first(merged_candidates(e, live, skip_learning), live, e.text);
}

/// No text is offered twice, whatever is put in front of the normal candidates.
pub proof fn law_conversion_repeats_nothing(e: EngineView, live: Seq<char>, skip_learning: bool)
    ensures
        distinct::all_distinct(all_candidates(e, live, skip_learning)),
{
    lemma_merged_distinct(e, live, skip_learning);
    lemma_live_first(merged_candidates(e, live, skip_learning), live, e.text);
}

/// Neither do the candidates repeat a text before the live conversion is moved.
pub proof fn law_merged_repeats_nothing(e: EngineView, live: Seq<char>, skip_learning: bool)
    ensures
        distinct::all_distinct(merged_candidates(e, live, skip_learning)),
{
    lemma_merged_distinct(e, live, skip_learning);
}

proof fn lemma_merged_distinct(e: EngineView, live: Seq<char>, skip_learning: bool)
    ensures
        distinct::all_distinct(merged_candidates(e, live, skip_learning)),
{
    let normal = normal_candidates(e, live, skip_learning);
    let asked = collect::asked(e, e.text, e.sources.config.num_candidates);
    let repairs = fuzzy::kana_repairs(asked, normal);
    lemma_normal(e, live, skip_learning);
    lemma_not_among(normal, repairs);
    fuzzy::law_kana_repairs(asked, normal);
    let rest = not_among(normal, repairs);
    let all = repairs + rest;
    assert forall|i: int, j: int| 0 <= i < j < all.len() implies (#[trigger] all[i]).key() != (
    #[trigger] all[j]).key() by {
        if j >= repairs.len() {
            assert(all[j] == rest[j - repairs.len()]);
            if i < repairs.len() {
                assert(repairs[i].key() == all[i].key());
                assert(distinct::has_key(repairs, all[i].key()));
            } else {
                assert(all[i] == rest[i - repairs.len()]);
            }
        }
    }
}

/// What was shown while typing does not get lost: it is among the candidates.
pub proof fn law_live_conversion_is_kept(e: EngineView, live: Seq<char>, skip_learning: bool)
    requires
        live.len() > 0,
        live != e.text || e.mode != InputMode::Emoji,
    ensures
        distinct::has_key(all_candidates(e, live, skip_learning), live),
{
    lemma_normal(e, live, skip_learning);
    if live == e.text {
        collect::law_reading_is_offered(
            e,
            e.text,
            e.sources.config.num_candidates,
            skip_learning,
        );
    }
    law_repairs_hide_nothing(e, live, skip_learning, live);
}

/// What was shown while typing is the first candidate from a model when a conversion
/// is started, if it is offered as one at all; and what is offered is what the
/// conversion shows.
pub proof fn law_live_conversion_is_first(e: EngineView, skip_learning: bool)
    requires
        composing::flushed(e).live.len() > 0,
        composing::flushed(e).live != composing::flushed(e).text,
    ensures
        live_leads(offered(e, skip_learning), composing::flushed(e).live),
        composing::flushed(e).text.len() > 0 && offered(e, skip_learning).len() > 0 ==> {
            &&& started(e, skip_learning).0.state is Conversion
            &&& started(e, skip_learning).0.segments[0].candidates.candidates
                == candidate::shown_all(
                offered(e, skip_learning),
                composing::flushed(e).text,
            )
        },
{
    let f = composing::flushed(e);
    if wants_repair(f, skip_learning) {
        fuzzy::law_fuzzy_repairs(f);
        lemma_live_first(fuzzy::fuzzy_repairs(f), f.live, f.text);
    } else {
        let g = conversion_begun(f);
        lemma_merged_distinct(g, f.live, skip_learning);
        lemma_live_first(merged_candidates(g, f.live, skip_learning), f.live, f.text);
    }
}

/// Outside emoji mode a conversion of something always offers candidates.
pub proof fn law_conversion_is_entered(e: EngineView, skip_learning: bool)
    requires
        e.mode != InputMode::Emoji,
        composing::flushed(e).text.len() > 0,
    ensures
        started(e, skip_learning).0.state is Conversion,
        started(e, skip_learning).0.segments.len() == 1,
        started(e, skip_learning).0.segments[0].reading == composing::flushed(e).text,
        started(e, skip_learning).0.segments[0].candidates.candidates.len() > 0,
        started(e, skip_learning).0.text == composing::flushed(e).text,
{
    let f = composing::flushed(e);
    let g = conversion_begun(f);
    if !wants_repair(f, skip_learning) {
        collect::law_reading_is_offered(
            g,
            g.text,
            g.sources.config.num_candidates,
            skip_learning,
        );
        lemma_normal(g, f.live, skip_learning);
        law_repairs_hide_nothing(g, f.live, skip_learning, g.text);
    }
}

/// A conversion that is started divides up the text from the outset.
pub proof fn lemma_started_in_step(e: EngineView, skip_learning: bool)
    requires
        !(e.state is Conversion),
    ensures
        segments::in_step(started(e, skip_learning).0),
{
    let f = composing::flushed(e);
    let g = conversion_begun(f);
    if wants_repair(f, skip_learning) {
        let l = ListView {
            candidates: candidate::shown_all(offered_repairs(f), f.text),
            cursor: 0,
        };
        segments::lemma_entered_in_step(
            conversion_begun(fuzzy::after_fuzzy_repairs(f)),
            f.text,
            l,
        );
    } else if f.text.len() > 0 {
        let list = all_candidates(g, f.live, skip_learning);
        let done = after_candidates(g, f.live, skip_learning);
        let l = ListView { candidates: candidate::shown_all(list, g.text), cursor: 0 };
        segments::lemma_entered_in_step(done, g.text, l);
    }
}

} // verus!
