//! Candidates for readings in which typing slips have been repaired.
use super::candidate;
use super::candidate::{AnnotatedCandidate, AnnotatedView, CandidateBuilder, CandidateSource};
use super::input_method::{EngineView, InputMethodEngine, ModelRunView, SourcesView};
use super::lookup;
use super::model;
use super::sources;
use crate::distinct;
use crate::distinct::Keyed;
use crate::romaji::fuzzy;
use crate::romaji::fuzzy::{generate_hypotheses, retain_repaired, FuzzyHypothesis, HypothesisView};
use crate::romaji::reverse;
use crate::romaji::reverse::generate_kana_hypotheses;
use crate::text;
use crate::text::{hiragana_to_katakana, is_pure_hiragana};
use vstd::prelude::*;

verus! {

/// How many repairs of stranded letters are tried.
pub const MAX_HYPOTHESES: usize = 100;

/// How many repairs of a kana reading are tried.
pub const MAX_KANA_HYPOTHESES: usize = 50;

/// How many dictionary entries a repaired reading contributes.
pub const MAX_DICT_HITS: usize = 5;

/// How many repaired readings are given to the models.
pub const MAX_MODEL_CALLS: usize = 5;

/// What the learning cache has for a repaired reading.
pub open spec fn learned_hits(
    learning: Option<Seq<(Seq<char>, Seq<char>)>>,
    reading: Seq<char>,
) -> Seq<AnnotatedView> {
    match learning {
        Some(entries) => sources::learned_for(entries, reading).map_values(
            |t: Seq<char>| AnnotatedView::reads(t, CandidateSource::Learning, reading),
        ),
        None => Seq::empty(),
    }
}

/// What the dictionaries have for a repaired reading.
pub open spec fn dict_hits_for(s: SourcesView, reading: Seq<char>) -> Seq<AnnotatedView> {
    lookup::dict_hits(s, reading, MAX_DICT_HITS as nat).map_values(
        |c: AnnotatedView| AnnotatedView::reads(c.text, c.source, reading),
    )
}

/// What learning cache and dictionaries have for a repaired reading.
pub open spec fn hits_for(
    s: SourcesView,
    learning: Option<Seq<(Seq<char>, Seq<char>)>>,
    reading: Seq<char>,
) -> Seq<AnnotatedView> {
    learned_hits(learning, reading) + dict_hits_for(s, reading)
}

/// What they have for all hypotheses, in turn.
pub open spec fn all_hits(
    s: SourcesView,
    learning: Option<Seq<(Seq<char>, Seq<char>)>>,
    hyps: Seq<HypothesisView>,
) -> Seq<AnnotatedView>
    decreases hyps.len(),
{
    if hyps.len() == 0 {
        Seq::empty()
    } else {
        all_hits(s, learning, hyps.drop_last()) + hits_for(s, learning, hyps.last().reading)
    }
}

/// The list holds a candidate for this reading.
pub open spec fn has_reading(list: Seq<AnnotatedView>, reading: Seq<char>) -> bool {
    exists|i: int| 0 <= i < list.len() && (#[trigger] list[i]).reading == Some(reading)
}

/// The readings of the hypotheses.
pub open spec fn readings_of(hyps: Seq<HypothesisView>) -> Seq<Seq<char>> {
    hyps.map_values(|h: HypothesisView| h.reading)
}

/// The readings of the hypotheses for which the list holds a candidate.
pub open spec fn answered(hyps: Seq<HypothesisView>, list: Seq<AnnotatedView>) -> Seq<Seq<char>>
    decreases hyps.len(),
{
    if hyps.len() == 0 {
        Seq::empty()
    } else if has_reading(list, hyps.last().reading) {
        answered(hyps.drop_last(), list).push(hyps.last().reading)
    } else {
        answered(hyps.drop_last(), list)
    }
}

/// What the models give for a repaired reading.
pub open spec fn model_hits(
    s: SourcesView,
    m: ModelRunView,
    reading: Seq<char>,
) -> Seq<AnnotatedView> {
    model::model_texts(s, m, reading, model::api_context(s), 1).map_values(
        |t: Seq<char>| AnnotatedView::reads(t, CandidateSource::Model, reading),
    )
}

/// What asking the models for these readings leaves behind.
pub open spec fn after_readings(s: SourcesView, m: ModelRunView, readings: Seq<Seq<char>>) -> ModelRunView
    decreases readings.len(),
{
    if readings.len() == 0 {
        m
    } else {
        model::after_run(
            s,
            after_readings(s, m, readings.drop_last()),
            readings.last(),
            model::api_context(s),
            1,
        )
    }
}

/// The list with what the models give for these readings.
pub open spec fn with_models(
    s: SourcesView,
    m: ModelRunView,
    list: Seq<AnnotatedView>,
    readings: Seq<Seq<char>>,
) -> Seq<AnnotatedView>
    decreases readings.len(),
{
    if readings.len() == 0 {
        list
    } else {
        distinct::extend_new(
            with_models(s, m, list, readings.drop_last()),
            model_hits(s, after_readings(s, m, readings.drop_last()), readings.last()),
        )
    }
}

/// The list with each hypothesis as kana: where the reading is new, it is added, and
/// then its katakana form, if that is new too.
pub open spec fn with_kana(list: Seq<AnnotatedView>, hyps: Seq<HypothesisView>) -> Seq<AnnotatedView>
    decreases hyps.len(),
{
    if hyps.len() == 0 {
        list
    } else {
        let before = with_kana(list, hyps.drop_last());
        let r = hyps.last().reading;
        if distinct::has_key(before, r) {
            before
        } else {
            distinct::push_new(
                before.push(AnnotatedView::reads(r, CandidateSource::Fallback, r)),
                AnnotatedView::reads(text::katakana(r), CandidateSource::Fallback, r),
            )
        }
    }
}

/// The hypotheses for the text that has been typed.
pub open spec fn typed_hypotheses(e: EngineView) -> Seq<HypothesisView> {
    if e.sources.config.fuzzy_repair_enabled {
        fuzzy::hypotheses(e.text, MAX_HYPOTHESES as nat)
    } else {
        Seq::empty()
    }
}

/// What learning cache and dictionaries have for the hypotheses, each text once.
pub open spec fn found_for(e: EngineView, hyps: Seq<HypothesisView>) -> Seq<AnnotatedView> {
    distinct::first_of_each(all_hits(e.sources, e.learning, hyps))
}

/// The readings to give to the models: those that something was found for, or the
/// first few if nothing was found at all.
pub open spec fn readings_to_convert(hyps: Seq<HypothesisView>, found: Seq<AnnotatedView>) -> Seq<
    Seq<char>,
> {
    if found.len() == 0 {
        distinct::at_most(readings_of(hyps), MAX_MODEL_CALLS as nat)
    } else {
        distinct::at_most(answered(hyps, found), MAX_MODEL_CALLS as nat)
    }
}

/// The candidates for stranded letters: what was found, what the models give, and
/// the repaired readings themselves.
pub open spec fn fuzzy_repairs(e: EngineView) -> Seq<AnnotatedView> {
    let hyps = typed_hypotheses(e);
    let found = found_for(e, hyps);
    with_kana(
        with_models(e.sources, e.model, found, readings_to_convert(hyps, found)),
        hyps,
    )
}

/// The engine after these candidates have been built.
pub open spec fn after_fuzzy_repairs(e: EngineView) -> EngineView {
    let hyps = typed_hypotheses(e);
    let asked = after_readings(
        e.sources,
        e.model,
        readings_to_convert(hyps, found_for(e, hyps)),
    );
    EngineView {
        model: if hyps.len() > 0 {
            model::sought(e.sources, asked)
        } else {
            asked
        },
        ..e
    }
}

/// A candidate that shows that the reading means something: the models make up
/// something for any reading, so theirs do not count.
pub open spec fn is_meaningful(source: CandidateSource) -> bool {
    source == CandidateSource::Learning || source == CandidateSource::Dictionary || source
        == CandidateSource::UserDictionary
}

/// A candidate of the list shows that the reading means something.
pub open spec fn has_meaningful(list: Seq<AnnotatedView>) -> bool {
    exists|i: int| 0 <= i < list.len() && is_meaningful((#[trigger] list[i]).source)
}

/// The hypotheses for a reading that is kana already: only for hiragana, and only
/// where the normal candidates do not show that it means something.
pub open spec fn kana_hypotheses_for(e: EngineView, normal: Seq<AnnotatedView>) -> Seq<
    HypothesisView,
> {
    if e.sources.config.fuzzy_repair_enabled && text::pure_hiragana(e.text) && !has_meaningful(
        normal,
    ) {
        fuzzy::fully_repaired(reverse::kana_hypotheses(e.text, MAX_KANA_HYPOTHESES as nat))
    } else {
        Seq::empty()
    }
}

/// The readings of kana hypotheses to give to the models: those that something was
/// found for.
pub open spec fn kana_readings_to_convert(
    hyps: Seq<HypothesisView>,
    found: Seq<AnnotatedView>,
) -> Seq<Seq<char>> {
    distinct::at_most(answered(hyps, found), MAX_MODEL_CALLS as nat)
}

/// The candidates for a kana reading with a slip in it. Without anything found there
/// is no reason to think that it has one.
pub open spec fn kana_repairs(e: EngineView, normal: Seq<AnnotatedView>) -> Seq<AnnotatedView> {
    let hyps = kana_hypotheses_for(e, normal);
    let found = found_for(e, hyps);
    with_models(e.sources, e.model, found, kana_readings_to_convert(hyps, found))
}

/// The engine after these candidates have been built.
pub open spec fn after_kana_repairs(e: EngineView, normal: Seq<AnnotatedView>) -> EngineView {
    let hyps = kana_hypotheses_for(e, normal);
    let found = found_for(e, hyps);
    let asked = after_readings(e.sources, e.model, kana_readings_to_convert(hyps, found));
    EngineView {
        model: if found.len() > 0 {
            model::sought(e.sources, asked)
        } else {
            asked
        },
        ..e
    }
}

fn push_reading(builder: &mut CandidateBuilder, t: &String, source: CandidateSource, reading: &String)
    ensures
        final(builder)@ == distinct::push_new(
            old(builder)@,
            AnnotatedView::reads(t@, source, reading@),
        ),
{
    let c = AnnotatedCandidate::new(t.clone(), source).with_reading(Some(reading.clone()));
    assert(c@ =~= AnnotatedView::reads(t@, source, reading@));
    builder.push(c);
}

fn push_texts(
    builder: &mut CandidateBuilder,
    texts: &Vec<String>,
    source: CandidateSource,
    reading: &String,
)
    ensures
        final(builder)@ == distinct::extend_new(
            old(builder)@,
            sources::texts(texts@).map_values(
                |t: Seq<char>| AnnotatedView::reads(t, source, reading@),
            ),
        ),
{
    let ghost base = builder@;
    let ghost all = sources::texts(texts@).map_values(
        |t: Seq<char>| AnnotatedView::reads(t, source, reading@),
    );
    let mut i: usize = 0;
    assert(all.take(0) =~= Seq::empty());
    while i < texts.len()
        invariant
            i <= texts.len(),
            all == sources::texts(texts@).map_values(
                |t: Seq<char>| AnnotatedView::reads(t, source, reading@),
            ),
            builder@ == distinct::extend_new(base, all.take(i as int)),
        decreases texts.len() - i,
    {
        proof {
            distinct::lemma_extend_step(base, all, i as int);
        }
        push_reading(builder, &texts[i], source, reading);
        i += 1;
    }
    assert(all.take(i as int) =~= all);
}

/// Whether a candidate for this reading is in the list.
fn check_reading(list: &Vec<AnnotatedCandidate>, reading: &String) -> (r: bool)
    ensures
        r == has_reading(candidate::annotated_views(list@), reading@),
{
    let ghost all = candidate::annotated_views(list@);
    let mut i: usize = 0;
    while i < list.len()
        invariant
            i <= list.len(),
            all == candidate::annotated_views(list@),
            forall|j: int| 0 <= j < i ==> (#[trigger] all[j]).reading != Some(reading@),
        decreases list.len() - i,
    {
        assert(all[i as int] == list@[i as int]@);
        if let Some(own) = &list[i].reading {
            if *own == *reading {
                assert(all[i as int].reading == Some(reading@));
                return true;
            }
        }
        i += 1;
    }
    false
}

/// The readings of the hypotheses that `list` has a candidate for, at most `max`.
fn answered_readings(
    hyps: &Vec<FuzzyHypothesis>,
    list: &Vec<AnnotatedCandidate>,
    max: usize,
) -> (r: Vec<String>)
    ensures
        sources::texts(r@) == distinct::at_most(
            answered(fuzzy::hypothesis_views(hyps@), candidate::annotated_views(list@)),
            max as nat,
        ),
{
    let ghost all = fuzzy::hypothesis_views(hyps@);
    let ghost found = candidate::annotated_views(list@);
    let mut r: Vec<String> = Vec::new();
    let mut i: usize = 0;
    assert(sources::texts(r@) =~= Seq::empty());
    assert(all.take(0) =~= Seq::empty());
    while i < hyps.len()
        invariant
            i <= hyps.len(),
            r.len() <= max,
            all == fuzzy::hypothesis_views(hyps@),
            found == candidate::annotated_views(list@),
            sources::texts(r@) == distinct::at_most(answered(all.take(i as int), found), max as nat),
        decreases hyps.len() - i,
    {
        let ghost before = sources::texts(r@);
        let ghost whole = answered(all.take(i as int), found);
        assert(all.take(i + 1).drop_last() =~= all.take(i as int));
        assert(all.take(i + 1).last() == hyps@[i as int]@);
        if check_reading(list, &hyps[i].reading) {
            let ghost next = whole.push(hyps@[i as int].reading@);
            if r.len() < max {
                let t = hyps[i].reading.clone();
                r.push(t);
                assert(sources::texts(r@) =~= before.push(t@));
                assert(distinct::at_most(next, max as nat) =~= before.push(t@));
            } else {
                assert(distinct::at_most(next, max as nat) =~= before);
            }
        }
        i += 1;
    }
    assert(all.take(i as int) =~= all);
    r
}

/// The readings of the first hypotheses, at most `max`.
fn first_readings(hyps: &Vec<FuzzyHypothesis>, max: usize) -> (r: Vec<String>)
    ensures
        sources::texts(r@) == distinct::at_most(
            readings_of(fuzzy::hypothesis_views(hyps@)),
            max as nat,
        ),
{
    let ghost all = readings_of(fuzzy::hypothesis_views(hyps@));
    let mut r: Vec<String> = Vec::new();
    let mut i: usize = 0;
    assert(sources::texts(r@) =~= all.take(0));
    while i < hyps.len() && i < max
        invariant
            i <= hyps.len(),
            i <= max,
            all == readings_of(fuzzy::hypothesis_views(hyps@)),
            sources::texts(r@) == all.take(i as int),
        decreases hyps.len() - i,
    {
        let ghost before = sources::texts(r@);
        let t = hyps[i].reading.clone();
        r.push(t);
        assert(sources::texts(r@) =~= before.push(t@));
        assert(all.take(i + 1) =~= all.take(i as int).push(all[i as int]));
        i += 1;
    }
    assert(sources::texts(r@) =~= distinct::at_most(all, max as nat));
    r
}

/// Whether one of the candidates shows that the reading means something.
fn check_meaningful(list: &Vec<AnnotatedCandidate>) -> (r: bool)
    ensures
        r == has_meaningful(candidate::annotated_views(list@)),
{
    let ghost all = candidate::annotated_views(list@);
    let mut i: usize = 0;
    while i < list.len()
        invariant
            i <= list.len(),
            all == candidate::annotated_views(list@),
            forall|j: int| 0 <= j < i ==> !is_meaningful((#[trigger] all[j]).source),
        decreases list.len() - i,
    {
        let source = list[i].source;
        if source == CandidateSource::Learning || source == CandidateSource::Dictionary || source
            == CandidateSource::UserDictionary {
            assert(is_meaningful(all[i as int].source));
            return true;
        }
        i += 1;
    }
    false
}

/// Adds the repaired readings themselves, in hiragana and katakana.
fn push_kana(builder: &mut CandidateBuilder, hyps: &Vec<FuzzyHypothesis>)
    ensures
        final(builder)@ == with_kana(old(builder)@, fuzzy::hypothesis_views(hyps@)),
{
    let ghost base = builder@;
    let ghost all = fuzzy::hypothesis_views(hyps@);
    let mut i: usize = 0;
    assert(all.take(0) =~= Seq::empty());
    while i < hyps.len()
        invariant
            i <= hyps.len(),
            all == fuzzy::hypothesis_views(hyps@),
            builder@ == with_kana(base, all.take(i as int)),
        decreases hyps.len() - i,
    {
        assert(all.take(i + 1).drop_last() =~= all.take(i as int));
        assert(all.take(i + 1).last() == hyps@[i as int]@);
        let reading = &hyps[i].reading;
        if !builder.contains(reading) {
            let katakana = hiragana_to_katakana(reading.as_str());
            push_reading(builder, reading, CandidateSource::Fallback, reading);
            push_reading(builder, &katakana, CandidateSource::Fallback, reading);
        }
        i += 1;
    }
    assert(all.take(i as int) =~= all);
}

impl InputMethodEngine {
    /// Adds what learning cache and dictionaries have for a repaired reading.
    fn push_hits(&self, builder: &mut CandidateBuilder, reading: &String)
        ensures
            final(builder)@ == distinct::extend_new(
                old(builder)@,
                hits_for(self@.sources, self@.learning, reading@),
            ),
    {
        let ghost base = builder@;
        let ghost a = learned_hits(self@.learning, reading@);
        let ghost b = dict_hits_for(self@.sources, reading@);
        if let Some(cache) = &self.learning {
            let surfaces = cache.lookup(reading.as_str());
            push_texts(builder, &surfaces, CandidateSource::Learning, reading);
        }
        assert(builder@ == distinct::extend_new(base, a));
        let ghost mid = builder@;
        let hits = self.search_dictionaries(reading.as_str(), MAX_DICT_HITS);
        let mut i: usize = 0;
        assert(hits.len() == candidate::annotated_views(hits@).len());
        assert(b.take(0) =~= Seq::empty());
        while i < hits.len()
            invariant
                i <= hits.len(),
                hits.len() == b.len(),
                candidate::annotated_views(hits@) == lookup::dict_hits(
                    self@.sources,
                    reading@,
                    MAX_DICT_HITS as nat,
                ),
                b == dict_hits_for(self@.sources, reading@),
                builder@ == distinct::extend_new(mid, b.take(i as int)),
            decreases hits.len() - i,
        {
            assert(candidate::annotated_views(hits@)[i as int] == hits@[i as int]@);
            proof {
                distinct::lemma_extend_step(mid, b, i as int);
            }
            push_reading(builder, &hits[i].text, hits[i].source, reading);
            i += 1;
        }
        proof {
            assert(b.take(i as int) =~= b);
            distinct::lemma_extend_concat(base, a, b);
        }
    }

    /// What learning cache and dictionaries have for the hypotheses.
    fn collect_hits(&self, hyps: &Vec<FuzzyHypothesis>) -> (r: CandidateBuilder)
        ensures
            r@ == found_for(self@, fuzzy::hypothesis_views(hyps@)),
    {
        let ghost all = fuzzy::hypothesis_views(hyps@);
        let mut builder = CandidateBuilder::new();
        let mut i: usize = 0;
        assert(all.take(0) =~= Seq::empty());
        while i < hyps.len()
            invariant
                i <= hyps.len(),
                all == fuzzy::hypothesis_views(hyps@),
                builder@ == found_for(self@, all.take(i as int)),
            decreases hyps.len() - i,
        {
            proof {
                assert(all.take(i + 1).drop_last() =~= all.take(i as int));
                assert(all.take(i + 1).last() == hyps@[i as int]@);
                distinct::lemma_extend_concat(
                    Seq::empty(),
                    all_hits(self@.sources, self@.learning, all.take(i as int)),
                    hits_for(self@.sources, self@.learning, hyps@[i as int].reading@),
                );
            }
            self.push_hits(&mut builder, &hyps[i].reading);
            i += 1;
        }
        assert(all.take(i as int) =~= all);
        builder
    }

    /// Adds what the models give for these readings.
    fn push_models(&mut self, builder: &mut CandidateBuilder, readings: &Vec<String>)
        ensures
            final(builder)@ == with_models(
                old(self)@.sources,
                old(self)@.model,
                old(builder)@,
                sources::texts(readings@),
            ),
            final(self)@ == (EngineView {
                model: after_readings(
                    old(self)@.sources,
                    old(self)@.model,
                    sources::texts(readings@),
                ),
                ..old(self)@
            }),
    {
        let ghost start = self@;
        let ghost base = builder@;
        let ghost all = sources::texts(readings@);
        let api_context = self.truncate_context_for_api();
        let mut i: usize = 0;
        assert(all.take(0) =~= Seq::empty());
        while i < readings.len()
            invariant
                i <= readings.len(),
                start == old(self)@,
                base == old(builder)@,
                all == sources::texts(readings@),
                api_context@ == model::api_context(start.sources),
                builder@ == with_models(start.sources, start.model, base, all.take(i as int)),
                self@ == (EngineView {
                    model: after_readings(start.sources, start.model, all.take(i as int)),
                    ..start
                }),
            decreases readings.len() - i,
        {
            proof {
                assert(all.take(i + 1).drop_last() =~= all.take(i as int));
                assert(all.take(i + 1).last() == readings@[i as int]@);
            }
            let texts = self.run_kana_kanji_conversion(
                readings[i].as_str(),
                api_context.as_str(),
                1,
            );
            push_texts(builder, &texts, CandidateSource::Model, &readings[i]);
            i += 1;
        }
        assert(all.take(i as int) =~= all);
    }

    /// Candidates for an input with stranded letters: the repaired readings, looked
    /// up, converted and as kana. None if repair is switched off or there is nothing
    /// to repair.
    pub fn fuzzy_repair_candidates(&mut self) -> (r: Vec<AnnotatedCandidate>)
        ensures
            candidate::annotated_views(r@) == fuzzy_repairs(old(self)@),
            final(self)@ == after_fuzzy_repairs(old(self)@),
    {
        let ghost start = self@;
        let hyps: Vec<FuzzyHypothesis> = if self.config.fuzzy_repair_enabled {
            generate_hypotheses(self.input_buf.text.as_str(), MAX_HYPOTHESES)
        } else {
            Vec::new()
        };
        let ghost all = fuzzy::hypothesis_views(hyps@);
        assert(all =~= typed_hypotheses(start));
        let builder = self.collect_hits(&hyps);
        let found = builder.into_candidates();
        let readings = if found.len() == 0 {
            first_readings(&hyps, MAX_MODEL_CALLS)
        } else {
            answered_readings(&hyps, &found, MAX_MODEL_CALLS)
        };
        assert(candidate::annotated_views(found@).len() == found.len());
        let mut builder = CandidateBuilder::from_candidates(found);
        self.push_models(&mut builder, &readings);
        assert(all.len() == hyps.len());
        if hyps.len() > 0 {
            self.ensure_kanji_converter();
        }
        push_kana(&mut builder, &hyps);
        builder.into_candidates()
    }

    /// Candidates for a kana reading that seems to have a slip in it: none of the
    /// normal candidates comes from the learning cache or a dictionary. Only repaired
    /// readings that one of these knows are offered.
    pub fn kana_repair_candidates(&mut self, normal_candidates: &Vec<AnnotatedCandidate>) -> (r: Vec<
        AnnotatedCandidate,
    >)
        ensures
            candidate::annotated_views(r@) == kana_repairs(
                old(self)@,
                candidate::annotated_views(normal_candidates@),
            ),
            final(self)@ == after_kana_repairs(
                old(self)@,
                candidate::annotated_views(normal_candidates@),
            ),
    {
        let ghost start = self@;
        let ghost normal = candidate::annotated_views(normal_candidates@);
        let hyps: Vec<FuzzyHypothesis> = if self.config.fuzzy_repair_enabled && is_pure_hiragana(
            self.input_buf.text.as_str(),
        ) && !check_meaningful(normal_candidates) {
            retain_repaired(
                generate_kana_hypotheses(self.input_buf.text.as_str(), MAX_KANA_HYPOTHESES),
            )
        } else {
            Vec::new()
        };
        let ghost all = fuzzy::hypothesis_views(hyps@);
        assert(all =~= kana_hypotheses_for(start, normal));
        let builder = self.collect_hits(&hyps);
        let found = builder.into_candidates();
        let readings = answered_readings(&hyps, &found, MAX_MODEL_CALLS);
        let any = found.len() > 0;
        assert(candidate::annotated_views(found@).len() == found.len());
        let mut builder = CandidateBuilder::from_candidates(found);
        self.push_models(&mut builder, &readings);
        if any {
            self.ensure_kanji_converter();
        }
        builder.into_candidates()
    }
}

/// Every candidate of the list is for the reading of one of the hypotheses.
pub open spec fn for_hypotheses(list: Seq<AnnotatedView>, hyps: Seq<HypothesisView>) -> bool {
    forall|i: int|
        0 <= i < list.len() ==> (#[trigger] list[i]).reading is Some && distinct::has_key(
            hyps,
            list[i].reading->0,
        )
}

proof fn lemma_has_key_shorter(hyps: Seq<HypothesisView>, k: Seq<char>)
    requires
        hyps.len() > 0,
        distinct::has_key(hyps.drop_last(), k),
    ensures
        distinct::has_key(hyps, k),
{
    let i = choose|i: int|
        0 <= i < hyps.drop_last().len() && (#[trigger] hyps.drop_last()[i]).key() == k;
    assert(hyps[i].key() == k);
}

proof fn lemma_for_more(list: Seq<AnnotatedView>, hyps: Seq<HypothesisView>)
    requires
        hyps.len() > 0,
        for_hypotheses(list, hyps.drop_last()),
    ensures
        for_hypotheses(list, hyps),
{
    assert forall|i: int| 0 <= i < list.len() implies (#[trigger] list[i]).reading is Some
        && distinct::has_key(hyps, list[i].reading->0) by {
        lemma_has_key_shorter(hyps, list[i].reading->0);
    }
}

proof fn lemma_extend_for(
    list: Seq<AnnotatedView>,
    items: Seq<AnnotatedView>,
    hyps: Seq<HypothesisView>,
)
    requires
        for_hypotheses(list, hyps),
        for_hypotheses(items, hyps),
    ensures
        for_hypotheses(distinct::extend_new(list, items), hyps),
{
    let all = distinct::extend_new(list, items);
    assert forall|i: int| 0 <= i < all.len() implies (#[trigger] all[i]).reading is Some
        && distinct::has_key(hyps, all[i].reading->0) by {
        distinct::law_extend_members(list, items, i);
        if list.contains(all[i]) {
            let j = choose|j: int| 0 <= j < list.len() && list[j] == all[i];
            assert(list[j].reading is Some);
        } else {
            let j = choose|j: int| 0 <= j < items.len() && items[j] == all[i];
            assert(items[j].reading is Some);
        }
    }
}

proof fn lemma_all_hits_for(
    s: SourcesView,
    learning: Option<Seq<(Seq<char>, Seq<char>)>>,
    hyps: Seq<HypothesisView>,
)
    ensures
        for_hypotheses(all_hits(s, learning, hyps), hyps),
    decreases hyps.len(),
{
    if hyps.len() > 0 {
        lemma_all_hits_for(s, learning, hyps.drop_last());
        let before = all_hits(s, learning, hyps.drop_last());
        lemma_for_more(before, hyps);
        let hits = hits_for(s, learning, hyps.last().reading);
        assert(hyps[hyps.len() - 1].key() == hyps.last().reading);
        let all = all_hits(s, learning, hyps);
        assert forall|i: int| 0 <= i < all.len() implies (#[trigger] all[i]).reading is Some
            && distinct::has_key(hyps, all[i].reading->0) by {
            if i < before.len() {
                assert(all[i] == before[i]);
            } else {
                assert(all[i] == hits[i - before.len()]);
            }
        }
    }
}

proof fn lemma_with_models(
    s: SourcesView,
    m: ModelRunView,
    list: Seq<AnnotatedView>,
    readings: Seq<Seq<char>>,
    hyps: Seq<HypothesisView>,
)
    requires
        for_hypotheses(list, hyps),
        distinct::all_distinct(list),
        forall|i: int| 0 <= i < readings.len() ==> distinct::has_key(hyps, #[trigger] readings[i]),
    ensures
        for_hypotheses(with_models(s, m, list, readings), hyps),
        distinct::all_distinct(with_models(s, m, list, readings)),
        list.len() <= with_models(s, m, list, readings).len(),
        with_models(s, m, list, readings).take(list.len() as int) == list,
    decreases readings.len(),
{
    if readings.len() == 0 {
        assert(list.take(list.len() as int) =~= list);
    } else {
        let shorter = readings.drop_last();
        assert forall|i: int| 0 <= i < shorter.len() implies distinct::has_key(
            hyps,
            #[trigger] shorter[i],
        ) by {
            assert(shorter[i] == readings[i]);
        }
        lemma_with_models(s, m, list, shorter, hyps);
        let before = with_models(s, m, list, shorter);
        let r = readings.last();
        assert(readings[readings.len() - 1] == r);
        let hits = model_hits(s, after_readings(s, m, shorter), r);
        lemma_extend_for(before, hits, hyps);
        distinct::law_extend_distinct(before, hits);
        distinct::law_extend_keeps_list(before, hits);
        let after = with_models(s, m, list, readings);
        assert(after.take(list.len() as int) =~= after.take(before.len() as int).take(
            list.len() as int,
        ));
    }
}

proof fn lemma_answered(hyps: Seq<HypothesisView>, list: Seq<AnnotatedView>)
    ensures
        forall|i: int|
            0 <= i < answered(hyps, list).len() ==> distinct::has_key(
                hyps,
                #[trigger] answered(hyps, list)[i],
            ),
    decreases hyps.len(),
{
    if hyps.len() > 0 {
        let before = answered(hyps.drop_last(), list);
        lemma_answered(hyps.drop_last(), list);
        assert(hyps[hyps.len() - 1].key() == hyps.last().reading);
        let all = answered(hyps, list);
        assert forall|i: int| 0 <= i < all.len() implies distinct::has_key(
            hyps,
            #[trigger] all[i],
        ) by {
            if i < before.len() {
                assert(all[i] == before[i]);
                lemma_has_key_shorter(hyps, before[i]);
            }
        }
    }
}

proof fn lemma_to_convert(hyps: Seq<HypothesisView>, found: Seq<AnnotatedView>)
    ensures
        forall|i: int|
            0 <= i < readings_to_convert(hyps, found).len() ==> distinct::has_key(
                hyps,
                #[trigger] readings_to_convert(hyps, found)[i],
            ),
        forall|i: int|
            0 <= i < kana_readings_to_convert(hyps, found).len() ==> distinct::has_key(
                hyps,
                #[trigger] kana_readings_to_convert(hyps, found)[i],
            ),
        readings_to_convert(hyps, found).len() <= MAX_MODEL_CALLS,
        kana_readings_to_convert(hyps, found).len() <= MAX_MODEL_CALLS,
{
    lemma_answered(hyps, found);
    let all = answered(hyps, found);
    let kana = kana_readings_to_convert(hyps, found);
    assert forall|i: int| 0 <= i < kana.len() implies distinct::has_key(
        hyps,
        #[trigger] kana[i],
    ) by {
        assert(kana[i] == all[i]);
    }
    let typed = readings_to_convert(hyps, found);
    assert forall|i: int| 0 <= i < typed.len() implies distinct::has_key(
        hyps,
        #[trigger] typed[i],
    ) by {
        if found.len() == 0 {
            assert(hyps[i].key() == typed[i]);
        } else {
            assert(typed[i] == all[i]);
        }
    }
}

proof fn lemma_with_kana(list: Seq<AnnotatedView>, hyps: Seq<HypothesisView>, all: Seq<HypothesisView>)
    requires
        for_hypotheses(list, all),
        distinct::all_distinct(list),
        forall|i: int|
            0 <= i < hyps.len() ==> distinct::has_key(all, (#[trigger] hyps[i]).reading),
    ensures
        for_hypotheses(with_kana(list, hyps), all),
        distinct::all_distinct(with_kana(list, hyps)),
        list.len() <= with_kana(list, hyps).len(),
        with_kana(list, hyps).take(list.len() as int) == list,
        forall|i: int|
            0 <= i < hyps.len() ==> distinct::has_key(
                with_kana(list, hyps),
                (#[trigger] hyps[i]).reading,
            ),
    decreases hyps.len(),
{
    if hyps.len() == 0 {
        assert(list.take(list.len() as int) =~= list);
    } else {
        let shorter = hyps.drop_last();
        assert forall|i: int| 0 <= i < shorter.len() implies distinct::has_key(
            all,
            (#[trigger] shorter[i]).reading,
        ) by {
            assert(shorter[i] == hyps[i]);
        }
        lemma_with_kana(list, shorter, all);
        let before = with_kana(list, shorter);
        let after = with_kana(list, hyps);
        let r = hyps.last().reading;
        assert(hyps[hyps.len() - 1].reading == r);
        let c = AnnotatedView::reads(r, CandidateSource::Fallback, r);
        if !distinct::has_key(before, r) {
            let mid = before.push(c);
            assert(mid[before.len() as int].key() == r);
            assert(distinct::has_key(mid, r));
            assert(distinct::all_distinct(mid));
            assert(after[before.len() as int].key() == r);
            assert(distinct::has_key(after, r));
        }
        assert(after.take(list.len() as int) =~= before.take(list.len() as int));
        assert forall|i: int| 0 <= i < hyps.len() implies distinct::has_key(
            after,
            (#[trigger] hyps[i]).reading,
        ) by {
            if i < shorter.len() {
                assert(shorter[i] == hyps[i]);
                assert(distinct::has_key(before, shorter[i].reading));
                let k = hyps[i].reading;
                let j = choose|j: int| 0 <= j < before.len() && (#[trigger] before[j]).key() == k;
                assert(after[j] == before[j]);
            }
        }
    }
}

/// The candidates for stranded letters repeat no text. Each is for one of the repaired
/// readings, none of which holds an ASCII character, and every repaired reading is among
/// the texts.
pub proof fn law_fuzzy_repairs(e: EngineView)
    ensures
        distinct::all_distinct(fuzzy_repairs(e)),
        for_hypotheses(fuzzy_repairs(e), typed_hypotheses(e)),
        forall|i: int|
            0 <= i < fuzzy_repairs(e).len() ==> !text::has_ascii(
                (#[trigger] fuzzy_repairs(e)[i]).reading->0,
            ),
        forall|i: int|
            0 <= i < typed_hypotheses(e).len() ==> distinct::has_key(
                fuzzy_repairs(e),
                (#[trigger] typed_hypotheses(e)[i]).reading,
            ),
{
    let hyps = typed_hypotheses(e);
    let none = Seq::<AnnotatedView>::empty();
    let hits = all_hits(e.sources, e.learning, hyps);
    let found = found_for(e, hyps);
    lemma_all_hits_for(e.sources, e.learning, hyps);
    lemma_extend_for(none, hits, hyps);
    distinct::law_extend_distinct(none, hits);
    lemma_to_convert(hyps, found);
    let readings = readings_to_convert(hyps, found);
    lemma_with_models(e.sources, e.model, found, readings, hyps);
    assert forall|i: int| 0 <= i < hyps.len() implies distinct::has_key(
        hyps,
        (#[trigger] hyps[i]).reading,
    ) by {
        assert(hyps[i].key() == hyps[i].reading);
    }
    lemma_with_kana(with_models(e.sources, e.model, found, readings), hyps, hyps);
    fuzzy::law_hypotheses_clean(e.text, MAX_HYPOTHESES as nat);
    let list = fuzzy_repairs(e);
    assert forall|i: int| 0 <= i < list.len() implies !text::has_ascii(
        (#[trigger] list[i]).reading->0,
    ) by {
        let k = list[i].reading->0;
        let j = choose|j: int| 0 <= j < hyps.len() && (#[trigger] hyps[j]).key() == k;
        assert(hyps[j].reading == k);
    }
}

/// Switched off, or on a text without stranded letters, the repair offers nothing and
/// asks no model.
pub proof fn law_nothing_stranded_nothing_offered(e: EngineView)
    requires
        !e.sources.config.fuzzy_repair_enabled || fuzzy::stranded(e.text).len() == 0,
    ensures
        fuzzy_repairs(e).len() == 0,
        after_fuzzy_repairs(e) == e,
{
    if e.sources.config.fuzzy_repair_enabled {
        fuzzy::law_nothing_to_repair(e.text, MAX_HYPOTHESES as nat);
    }
    let hyps = typed_hypotheses(e);
    assert(readings_of(hyps) =~= Seq::empty());
    assert(readings_to_convert(hyps, found_for(e, hyps)) =~= Seq::empty());
}

/// The models are asked for a few repaired readings at most.
pub proof fn law_few_model_calls(e: EngineView, normal: Seq<AnnotatedView>)
    ensures
        readings_to_convert(typed_hypotheses(e), found_for(e, typed_hypotheses(e))).len()
            <= MAX_MODEL_CALLS,
        kana_readings_to_convert(
            kana_hypotheses_for(e, normal),
            found_for(e, kana_hypotheses_for(e, normal)),
        ).len() <= MAX_MODEL_CALLS,
{
    lemma_to_convert(typed_hypotheses(e), found_for(e, typed_hypotheses(e)));
    let hyps = kana_hypotheses_for(e, normal);
    lemma_to_convert(hyps, found_for(e, hyps));
}

proof fn lemma_hits_meaningful(
    s: SourcesView,
    learning: Option<Seq<(Seq<char>, Seq<char>)>>,
    hyps: Seq<HypothesisView>,
)
    ensures
        forall|i: int|
            0 <= i < all_hits(s, learning, hyps).len() ==> is_meaningful(
                (#[trigger] all_hits(s, learning, hyps)[i]).source,
            ),
    decreases hyps.len(),
{
    if hyps.len() > 0 {
        let shorter = hyps.drop_last();
        lemma_hits_meaningful(s, learning, shorter);
        let before = all_hits(s, learning, shorter);
        let r = hyps.last().reading;
        let learned = learned_hits(learning, r);
        let dict = lookup::dict_hits(s, r, MAX_DICT_HITS as nat);
        lookup::law_dict_hits(s, r, MAX_DICT_HITS as nat);
        let all = all_hits(s, learning, hyps);
        assert forall|i: int| 0 <= i < all.len() implies is_meaningful(
            (#[trigger] all[i]).source,
        ) by {
            if i < before.len() {
                assert(all[i] == before[i]);
            } else if i < before.len() + learned.len() {
                assert(all[i] == learned[i - before.len()]);
            } else {
                let j = i - before.len() - learned.len();
                assert(all[i] == dict_hits_for(s, r)[j]);
                assert(all[i].source == dict[j].source);
                if lookup::user_hits(s, r).contains(dict[j]) {
                } else {
                    assert(lookup::system_hits(s, r).contains(dict[j]));
                }
            }
        }
    }
}

/// Repairs of a kana reading repeat no text, and each is for one of the repaired
/// readings, none of which holds an ASCII character. They are offered only with a
/// dictionary or learning hit among them.
pub proof fn law_kana_repairs(e: EngineView, normal: Seq<AnnotatedView>)
    ensures
        distinct::all_distinct(kana_repairs(e, normal)),
        for_hypotheses(kana_repairs(e, normal), kana_hypotheses_for(e, normal)),
        forall|i: int|
            0 <= i < kana_repairs(e, normal).len() ==> !text::has_ascii(
                (#[trigger] kana_repairs(e, normal)[i]).reading->0,
            ),
        kana_repairs(e, normal).len() > 0 ==> has_meaningful(kana_repairs(e, normal)),
{
    let hyps = kana_hypotheses_for(e, normal);
    let none = Seq::<AnnotatedView>::empty();
    let hits = all_hits(e.sources, e.learning, hyps);
    let found = found_for(e, hyps);
    lemma_all_hits_for(e.sources, e.learning, hyps);
    lemma_extend_for(none, hits, hyps);
    distinct::law_extend_distinct(none, hits);
    lemma_to_convert(hyps, found);
    let readings = kana_readings_to_convert(hyps, found);
    lemma_with_models(e.sources, e.model, found, readings, hyps);
    let list = kana_repairs(e, normal);
    fuzzy::lemma_fully_repaired(reverse::kana_hypotheses(e.text, MAX_KANA_HYPOTHESES as nat));
    assert forall|i: int| 0 <= i < list.len() implies !text::has_ascii(
        (#[trigger] list[i]).reading->0,
    ) by {
        let k = list[i].reading->0;
        let j = choose|j: int| 0 <= j < hyps.len() && (#[trigger] hyps[j]).key() == k;
        assert(hyps[j].reading == k);
    }
    if list.len() > 0 {
        if found.len() == 0 {
            lemma_nothing_answered(hyps, found);
            assert(list =~= found);
        }
        lemma_hits_meaningful(e.sources, e.learning, hyps);
        distinct::law_extend_members(none, hits, 0);
        let j = choose|j: int| 0 <= j < hits.len() && hits[j] == found[0];
        assert(is_meaningful(hits[j].source));
        assert(list.take(found.len() as int)[0] == found[0]);
        assert(is_meaningful(list[0].source));
    }
}

proof fn lemma_nothing_answered(hyps: Seq<HypothesisView>, list: Seq<AnnotatedView>)
    requires
        list.len() == 0,
    ensures
        answered(hyps, list).len() == 0,
    decreases hyps.len(),
{
    if hyps.len() > 0 {
        lemma_nothing_answered(hyps.drop_last(), list);
    }
}

/// A reading that means something, or that is not all hiragana, is not repaired, and
/// neither is any while the repair is switched off.
pub proof fn law_meaningful_is_not_repaired(e: EngineView, normal: Seq<AnnotatedView>)
    requires
        !e.sources.config.fuzzy_repair_enabled || !text::pure_hiragana(e.text) || has_meaningful(
            normal,
        ),
    ensures
        kana_repairs(e, normal).len() == 0,
        after_kana_repairs(e, normal) == e,
{
    let hyps = kana_hypotheses_for(e, normal);
    assert(answered(hyps, found_for(e, hyps)).len() == 0);
    assert(kana_readings_to_convert(hyps, found_for(e, hyps)) =~= Seq::empty());
}

} // verus!
