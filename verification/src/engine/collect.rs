//! Building the list of conversion candidates for a reading.
use super::candidate;
use super::candidate::{
    copy_optional, show_all, width_annotation, AnnotatedCandidate, AnnotatedView, CandidateBuilder,
    CandidateList, CandidateSource, CandidateView, ListView,
};
use super::input_method::{EngineView, InputMethodEngine, SourcesView};
use super::lookup;
use super::model;
use super::sources;
use super::sources::{RewriteRule, RuleView};
use super::state::InputMode;
use crate::distinct;
use crate::distinct::Keyed;
use crate::text;
use crate::text::{hiragana_to_katakana, same_text};
use vstd::prelude::*;

verus! {

/// A candidate from the learning cache in a conversion; a reading that is the one
/// typed is left out.
pub open spec fn from_learned(c: CandidateView, reading: Seq<char>) -> AnnotatedView {
    AnnotatedView {
        text: c.text,
        source: CandidateSource::Learning,
        reading: if c.reading == Some(reading) {
            None
        } else {
            c.reading
        },
        description: None,
    }
}

/// What the learning cache puts at the top of a conversion.
pub open spec fn learned_list(
    learning: Option<Seq<(Seq<char>, Seq<char>)>>,
    reading: Seq<char>,
) -> Seq<AnnotatedView> {
    lookup::learning_hits(learning, reading).map_values(
        |c: CandidateView| from_learned(c, reading),
    )
}

/// What the models gave.
pub open spec fn from_model(texts: Seq<Seq<char>>) -> Seq<AnnotatedView> {
    texts.map_values(|t: Seq<char>| AnnotatedView::plain(t, CandidateSource::Model))
}

/// Variants of the input.
pub open spec fn from_rules(rules: Seq<RuleView>) -> Seq<AnnotatedView> {
    rules.map_values(
        |r: RuleView|
            AnnotatedView {
                text: r.variant,
                source: CandidateSource::Rewriter,
                reading: None,
                description: r.description,
            },
    )
}

/// The candidates that come from `source`.
pub open spec fn only(list: Seq<AnnotatedView>, source: CandidateSource) -> Seq<AnnotatedView>
    decreases list.len(),
{
    if list.len() == 0 {
        Seq::empty()
    } else if list.last().source == source {
        only(list.drop_last(), source).push(list.last())
    } else {
        only(list.drop_last(), source)
    }
}

/// The reading itself, in hiragana and in katakana.
pub open spec fn kana_forms(reading: Seq<char>) -> Seq<AnnotatedView> {
    seq![
        AnnotatedView::plain(reading, CandidateSource::Fallback),
        AnnotatedView::plain(text::katakana(reading), CandidateSource::Fallback),
    ]
}

/// The list up to the user dictionary.
pub open spec fn with_user_dict(
    s: SourcesView,
    learned: Seq<AnnotatedView>,
    reading: Seq<char>,
) -> Seq<AnnotatedView> {
    distinct::extend_new(
        learned,
        only(
            lookup::dict_hits(s, reading, usize::MAX as nat),
            CandidateSource::UserDictionary,
        ),
    )
}

/// The list up to the models.
pub open spec fn with_model(list: Seq<AnnotatedView>, texts: Seq<Seq<char>>) -> Seq<
    AnnotatedView,
> {
    distinct::extend_new(list, from_model(texts))
}

/// The candidates of a conversion, in the order learning cache, user dictionary,
/// models, system dictionary, the reading itself, variants of it. A text that is
/// there already is not added again. An emoji shortcode is not offered as itself.
pub open spec fn collected(
    s: SourcesView,
    learned: Seq<AnnotatedView>,
    mode: InputMode,
    texts: Seq<Seq<char>>,
    reading: Seq<char>,
) -> Seq<AnnotatedView> {
    let dict = lookup::dict_hits(s, reading, usize::MAX as nat);
    let base = distinct::extend_new(
        with_model(with_user_dict(s, learned, reading), texts),
        only(dict, CandidateSource::Dictionary),
    );
    let variants = from_rules(sources::rules_for(s.rules, reading));
    if mode == InputMode::Emoji {
        distinct::extend_new(base, variants)
    } else {
        distinct::extend_new(base, kana_forms(reading) + variants)
    }
}

/// A candidate that stands for the input and is a known symbol, with its name.
pub open spec fn symbol_named(s: SourcesView, c: AnnotatedView) -> AnnotatedView {
    if c.source == CandidateSource::Fallback && c.description is None {
        AnnotatedView { description: sources::symbol_name(s.symbols, c.text), ..c }
    } else {
        c
    }
}

/// A candidate that has no description and is all in one kana script, with a note on
/// that.
pub open spec fn script_noted(c: AnnotatedView) -> AnnotatedView {
    if c.description is None {
        AnnotatedView { description: candidate::script_note(c.text), ..c }
    } else {
        c
    }
}

/// The candidates of a conversion with their descriptions.
pub open spec fn conversion_list(
    s: SourcesView,
    learned: Seq<AnnotatedView>,
    mode: InputMode,
    texts: Seq<Seq<char>>,
    reading: Seq<char>,
) -> Seq<AnnotatedView> {
    collected(s, learned, mode, texts, reading).map_values(
        |c: AnnotatedView| script_noted(symbol_named(s, c)),
    )
}

/// What the learning cache contributes to a conversion, unless it is to be skipped.
pub open spec fn learned_or_skipped(e: EngineView, reading: Seq<char>, skip_learning: bool) -> Seq<
    AnnotatedView,
> {
    if skip_learning {
        Seq::empty()
    } else {
        learned_list(e.learning, reading)
    }
}

/// The candidates of a conversion.
pub open spec fn candidates_for(
    e: EngineView,
    reading: Seq<char>,
    num_candidates: usize,
    skip_learning: bool,
) -> Seq<AnnotatedView> {
    conversion_list(
        e.sources,
        learned_or_skipped(e, reading, skip_learning),
        e.mode,
        model::model_texts(
            e.sources,
            e.model,
            reading,
            model::api_context(e.sources),
            num_candidates,
        ),
        reading,
    )
}

/// The engine after the models have been asked for a reading.
pub open spec fn asked(e: EngineView, reading: Seq<char>, num_candidates: usize) -> EngineView {
    EngineView {
        model: model::sought(
            e.sources,
            model::after_run(
                e.sources,
                e.model,
                reading,
                model::api_context(e.sources),
                num_candidates,
            ),
        ),
        ..e
    }
}

/// The list that shows the candidates of a conversion.
pub open spec fn shown_candidates(
    e: EngineView,
    reading: Seq<char>,
    num_candidates: usize,
) -> ListView {
    ListView {
        candidates: candidate::shown_all(
            candidates_for(e, reading, num_candidates, false),
            reading,
        ),
        cursor: 0,
    }
}

fn push_source(
    builder: &mut CandidateBuilder,
    list: &Vec<AnnotatedCandidate>,
    source: CandidateSource,
)
    ensures
        final(builder)@ == distinct::extend_new(
            old(builder)@,
            only(candidate::annotated_views(list@), source),
        ),
{
    let ghost base = builder@;
    let ghost all = candidate::annotated_views(list@);
    let mut i: usize = 0;
    assert(all.take(0) =~= Seq::empty());
    while i < list.len()
        invariant
            i <= list.len(),
            all == candidate::annotated_views(list@),
            builder@ == distinct::extend_new(base, only(all.take(i as int), source)),
        decreases list.len() - i,
    {
        assert(all.take(i + 1).drop_last() =~= all.take(i as int));
        assert(all.take(i + 1).last() == list@[i as int]@);
        if list[i].source == source {
            proof {
                distinct::lemma_extend_push(base, only(all.take(i as int), source), all[i as int]);
            }
            builder.push(list[i].clone());
        }
        i += 1;
    }
    assert(all.take(i as int) =~= all);
}

fn push_model(builder: &mut CandidateBuilder, texts: &Vec<String>)
    ensures
        final(builder)@ == distinct::extend_new(
            old(builder)@,
            from_model(sources::texts(texts@)),
        ),
{
    let ghost base = builder@;
    let ghost all = from_model(sources::texts(texts@));
    let mut i: usize = 0;
    assert(all.take(0) =~= Seq::empty());
    while i < texts.len()
        invariant
            i <= texts.len(),
            all == from_model(sources::texts(texts@)),
            builder@ == distinct::extend_new(base, all.take(i as int)),
        decreases texts.len() - i,
    {
        proof {
            distinct::lemma_extend_step(base, all, i as int);
        }
        let c = AnnotatedCandidate::new(texts[i].clone(), CandidateSource::Model);
        assert(c@ == all[i as int]);
        builder.push(c);
        i += 1;
    }
    assert(all.take(i as int) =~= all);
}

fn push_variants(builder: &mut CandidateBuilder, rules: &Vec<RewriteRule>)
    ensures
        final(builder)@ == distinct::extend_new(
            old(builder)@,
            from_rules(sources::rule_views(rules@)),
        ),
{
    let ghost base = builder@;
    let ghost all = from_rules(sources::rule_views(rules@));
    let mut i: usize = 0;
    assert(all.take(0) =~= Seq::empty());
    while i < rules.len()
        invariant
            i <= rules.len(),
            all == from_rules(sources::rule_views(rules@)),
            builder@ == distinct::extend_new(base, all.take(i as int)),
        decreases rules.len() - i,
    {
        proof {
            distinct::lemma_extend_step(base, all, i as int);
        }
        let c = AnnotatedCandidate::new(
            rules[i].variant.clone(),
            CandidateSource::Rewriter,
        ).with_description(copy_optional(&rules[i].description));
        assert(c@ =~= all[i as int]);
        builder.push(c);
        i += 1;
    }
    assert(all.take(i as int) =~= all);
}

impl InputMethodEngine {
    /// Puts what the learning cache has for the reading at the top of the list.
    fn push_learned_list(&self, builder: &mut CandidateBuilder, reading: &str)
        requires
            old(builder)@.len() == 0,
        ensures
            final(builder)@ == learned_list(self@.learning, reading@),
    {
        let learned = self.lookup_learning_candidates(reading);
        let ghost all = learned_list(self@.learning, reading@);
        let mut i: usize = 0;
        assert(learned.len() == candidate::candidate_views(learned@).len());
        assert(builder@ =~= all.take(0));
        while i < learned.len()
            invariant
                i <= learned.len(),
                learned.len() == all.len(),
                candidate::candidate_views(learned@) == lookup::learning_hits(
                    self@.learning,
                    reading@,
                ),
                all == learned_list(self@.learning, reading@),
                builder@ == all.take(i as int),
            decreases learned.len() - i,
        {
            assert(candidate::candidate_views(learned@)[i as int] == learned@[i as int]@);
            let own = match &learned[i].reading {
                Some(r) => {
                    if same_text(r.as_str(), reading) {
                        None
                    } else {
                        Some(r.clone())
                    }
                },
                None => None,
            };
            let c = AnnotatedCandidate::new(
                learned[i].text.clone(),
                CandidateSource::Learning,
            ).with_reading(own);
            assert(c@ =~= all[i as int]);
            builder.push_force(c);
            i += 1;
            assert(all.take(i as int) =~= all.take(i - 1).push(all[i - 1]));
        }
        assert(all.take(i as int) =~= all);
    }

    /// Adds the description that a candidate lacks, if there is one for it.
    fn describe(&self, c: &AnnotatedCandidate) -> (r: AnnotatedCandidate)
        ensures
            r@ == script_noted(symbol_named(self@.sources, c@)),
    {
        let mut description = copy_optional(&c.description);
        if c.source == CandidateSource::Fallback && description.is_none() {
            description = self.converters.symbols.symbol_description(c.text.as_str());
        }
        if description.is_none() {
            description = match width_annotation(c.text.as_str()) {
                Some(note) => Some(note.to_owned()),
                None => None,
            };
        }
        let r = AnnotatedCandidate {
            text: c.text.clone(),
            source: c.source,
            reading: copy_optional(&c.reading),
            description,
        };
        assert(r@ =~= script_noted(symbol_named(self@.sources, c@)));
        r
    }

    /// Builds the candidates of a conversion. The order is: learning cache, user
    /// dictionary, models, system dictionary, the reading itself, variants of it.
    /// `skip_learning` leaves the learning cache out.
    pub fn build_conversion_candidates(
        &mut self,
        reading: &str,
        num_candidates: usize,
        skip_learning: bool,
    ) -> (r: Vec<AnnotatedCandidate>)
        ensures
            candidate::annotated_views(r@) == candidates_for(
                old(self)@,
                reading@,
                num_candidates,
                skip_learning,
            ),
            final(self)@ == asked(old(self)@, reading@, num_candidates),
    {
        let ghost start = self@;
        let api_context = self.truncate_context_for_api();
        let texts = self.run_kana_kanji_conversion(reading, api_context.as_str(), num_candidates);
        self.ensure_kanji_converter();
        let ghost s = self@.sources;
        let ghost model = sources::texts(texts@);
        let ghost learned = learned_or_skipped(start, reading@, skip_learning);
        assert(model.len() == texts.len());
        let hiragana = reading.to_owned();
        let katakana = hiragana_to_katakana(reading);

        let mut builder = CandidateBuilder::new();
        if !skip_learning {
            self.push_learned_list(&mut builder, reading);
        }
        assert(builder@ == learned);
        let dict = self.search_dictionaries(reading, usize::MAX);
        push_source(&mut builder, &dict, CandidateSource::UserDictionary);
        assert(builder@ == with_user_dict(s, learned, reading@));
        push_model(&mut builder, &texts);
        assert(builder@ == with_model(with_user_dict(s, learned, reading@), model));
        push_source(&mut builder, &dict, CandidateSource::Dictionary);
        let variants = self.converters.rewriters.rewrite(reading);
        if self.input_mode == InputMode::Emoji {
            push_variants(&mut builder, &variants);
        } else {
            let ghost before = builder@;
            let h = AnnotatedCandidate::new(hiragana, CandidateSource::Fallback);
            let k = AnnotatedCandidate::new(katakana, CandidateSource::Fallback);
            builder.push(h);
            builder.push(k);
            proof {
                let forms = kana_forms(reading@);
                assert(forms =~= seq![h@].push(k@));
                distinct::lemma_extend_push(before, seq![h@], k@);
                distinct::lemma_extend_one(before, h@);
                distinct::lemma_extend_concat(
                    before,
                    forms,
                    from_rules(sources::rule_views(variants@)),
                );
            }
            push_variants(&mut builder, &variants);
        }
        assert(builder@ == collected(s, learned, start.mode, model, reading@));
        let found = builder.into_candidates();
        let ghost all = candidates_for(start, reading@, num_candidates, skip_learning);
        let mut out: Vec<AnnotatedCandidate> = Vec::new();
        let mut i: usize = 0;
        assert(found.len() == candidate::annotated_views(found@).len());
        assert(candidate::annotated_views(out@) =~= all.take(0));
        while i < found.len()
            invariant
                i <= found.len(),
                found.len() == all.len(),
                self@.sources == s,
                self@ == asked(start, reading@, num_candidates),
                start == old(self)@,
                candidate::annotated_views(found@) == collected(
                    s,
                    learned,
                    start.mode,
                    model,
                    reading@,
                ),
                all == conversion_list(s, learned, start.mode, model, reading@),
                candidate::annotated_views(out@) == all.take(i as int),
            decreases found.len() - i,
        {
            let ghost before = candidate::annotated_views(out@);
            assert(candidate::annotated_views(found@)[i as int] == found@[i as int]@);
            let c = self.describe(&found[i]);
            out.push(c);
            i += 1;
            assert(c@ == all[i - 1]);
            assert(candidate::annotated_views(out@) =~= before.push(c@));
            assert(all.take(i as int) =~= all.take(i - 1).push(all[i - 1]));
        }
        assert(all.take(i as int) =~= all);
        out
    }

    /// Converts a reading to the list of its candidates.
    pub fn build_segment_candidates(&mut self, reading: &str, n_cands: usize) -> (r: CandidateList)
        ensures
            r@ == shown_candidates(old(self)@, reading@, n_cands),
            final(self)@ == asked(old(self)@, reading@, n_cands),
    {
        let candidates = self.build_conversion_candidates(reading, n_cands, false);
        show_all(&candidates, reading)
    }
}

/// The place of a source in the order of a conversion list.
pub open spec fn rank(source: CandidateSource) -> int {
    match source {
        CandidateSource::Learning => 0,
        CandidateSource::UserDictionary => 1,
        CandidateSource::Model => 2,
        CandidateSource::Dictionary => 3,
        CandidateSource::Fallback => 4,
        CandidateSource::Rewriter => 5,
    }
}

/// No candidate comes before one from an earlier source.
pub open spec fn in_rank_order(list: Seq<AnnotatedView>) -> bool {
    forall|i: int, j: int|
        0 <= i < j < list.len() ==> rank((#[trigger] list[i]).source) <= rank(
            (#[trigger] list[j]).source,
        )
}

/// No candidate comes from a source later than `r`.
spec fn rank_up_to(list: Seq<AnnotatedView>, r: int) -> bool {
    forall|i: int| 0 <= i < list.len() ==> rank((#[trigger] list[i]).source) <= r
}

/// All candidates come from the source of rank `r`.
spec fn of_rank(list: Seq<AnnotatedView>, r: int) -> bool {
    forall|i: int| 0 <= i < list.len() ==> rank((#[trigger] list[i]).source) == r
}

proof fn lemma_extend_in_order(
    list: Seq<AnnotatedView>,
    items: Seq<AnnotatedView>,
    before: int,
    r: int,
)
    requires
        before <= r,
        in_rank_order(list),
        rank_up_to(list, before),
        of_rank(items, r),
    ensures
        in_rank_order(distinct::extend_new(list, items)),
        rank_up_to(distinct::extend_new(list, items), r),
{
    let all = distinct::extend_new(list, items);
    distinct::law_extend_keeps_list(list, items);
    assert forall|i: int| 0 <= i < all.len() implies (i < list.len() ==> all[i] == list[i]) && (i
        >= list.len() ==> rank((#[trigger] all[i]).source) == r) by {
        if i < list.len() {
            assert(all.take(list.len() as int)[i] == list[i]);
        } else {
            distinct::law_extend_adds_items(list, items, i);
            let j = choose|j: int| 0 <= j < items.len() && items[j] == all[i];
            assert(rank(items[j].source) == r);
        }
    }
}

proof fn lemma_only(list: Seq<AnnotatedView>, source: CandidateSource)
    ensures
        forall|i: int| 0 <= i < only(list, source).len() ==> (#[trigger] only(list, source)[i]).source
            == source,
    decreases list.len(),
{
    if list.len() > 0 {
        lemma_only(list.drop_last(), source);
    }
}

proof fn lemma_notes_keep(s: SourcesView, list: Seq<AnnotatedView>)
    ensures
        ({
            let noted = list.map_values(|c: AnnotatedView| script_noted(symbol_named(s, c)));
            &&& noted.len() == list.len()
            &&& forall|i: int|
                0 <= i < list.len() ==> (#[trigger] noted[i]).text == list[i].text
                    && noted[i].source == list[i].source && noted[i].reading == list[i].reading
        }),
{
}

/// The candidates of a conversion come in the order learning cache, user dictionary,
/// models, system dictionary, the reading itself, variants of it.
pub proof fn law_candidates_in_order(
    e: EngineView,
    reading: Seq<char>,
    num_candidates: usize,
    skip_learning: bool,
)
    ensures
        in_rank_order(candidates_for(e, reading, num_candidates, skip_learning)),
{
    let s = e.sources;
    let learned = learned_or_skipped(e, reading, skip_learning);
    let texts = model::model_texts(
        s,
        e.model,
        reading,
        model::api_context(s),
        num_candidates,
    );
    let dict = lookup::dict_hits(s, reading, usize::MAX as nat);
    let users = only(dict, CandidateSource::UserDictionary);
    let system = only(dict, CandidateSource::Dictionary);
    let variants = from_rules(sources::rules_for(s.rules, reading));
    lemma_only(dict, CandidateSource::UserDictionary);
    lemma_only(dict, CandidateSource::Dictionary);
    assert(of_rank(learned, 0));
    let l1 = with_user_dict(s, learned, reading);
    lemma_extend_in_order(learned, users, 0, 1);
    let l2 = with_model(l1, texts);
    assert(of_rank(from_model(texts), 2));
    lemma_extend_in_order(l1, from_model(texts), 1, 2);
    let l3 = distinct::extend_new(l2, system);
    lemma_extend_in_order(l2, system, 2, 3);
    assert(of_rank(variants, 5));
    if e.mode == InputMode::Emoji {
        lemma_extend_in_order(l3, variants, 3, 5);
    } else {
        let kana = kana_forms(reading);
        let l4 = distinct::extend_new(l3, kana);
        assert(of_rank(kana, 4));
        lemma_extend_in_order(l3, kana, 3, 4);
        lemma_extend_in_order(l4, variants, 4, 5);
        distinct::lemma_extend_concat(l3, kana, variants);
    }
    lemma_notes_keep(s, collected(s, learned, e.mode, texts, reading));
}

/// No text is offered twice in a conversion.
pub proof fn law_candidates_distinct(
    e: EngineView,
    reading: Seq<char>,
    num_candidates: usize,
    skip_learning: bool,
)
    ensures
        distinct::all_distinct(candidates_for(e, reading, num_candidates, skip_learning)),
{
    let s = e.sources;
    let learned = learned_or_skipped(e, reading, skip_learning);
    let texts = model::model_texts(
        s,
        e.model,
        reading,
        model::api_context(s),
        num_candidates,
    );
    let dict = lookup::dict_hits(s, reading, usize::MAX as nat);
    let variants = from_rules(sources::rules_for(s.rules, reading));
    if e.learning is Some {
        lookup::law_learning_hits(e.learning->0, reading);
    }
    let hits = lookup::learning_hits(e.learning, reading);
    assert(distinct::all_distinct(hits));
    assert forall|i: int, j: int| 0 <= i < j < learned.len() implies (#[trigger] learned[i]).key()
        != (#[trigger] learned[j]).key() by {
        assert(learned[i].key() == hits[i].key());
        assert(learned[j].key() == hits[j].key());
    }
    let l1 = with_user_dict(s, learned, reading);
    distinct::law_extend_distinct(learned, only(dict, CandidateSource::UserDictionary));
    distinct::law_extend_distinct(l1, from_model(texts));
    let l2 = with_model(l1, texts);
    distinct::law_extend_distinct(l2, only(dict, CandidateSource::Dictionary));
    let l3 = distinct::extend_new(l2, only(dict, CandidateSource::Dictionary));
    distinct::law_extend_distinct(l3, variants);
    distinct::law_extend_distinct(l3, kana_forms(reading) + variants);
    let all = collected(s, learned, e.mode, texts, reading);
    let list = candidates_for(e, reading, num_candidates, skip_learning);
    lemma_notes_keep(s, all);
    assert forall|i: int, j: int| 0 <= i < j < list.len() implies (#[trigger] list[i]).key() != (
    #[trigger] list[j]).key() by {
        assert(all[i].key() != all[j].key());
    }
}

/// Outside emoji mode the reading can always be kept as it is, in hiragana and in
/// katakana, so that a conversion is never without candidates.
pub proof fn law_reading_is_offered(
    e: EngineView,
    reading: Seq<char>,
    num_candidates: usize,
    skip_learning: bool,
)
    requires
        e.mode != InputMode::Emoji,
    ensures
        distinct::has_key(candidates_for(e, reading, num_candidates, skip_learning), reading),
        distinct::has_key(
            candidates_for(e, reading, num_candidates, skip_learning),
            text::katakana(reading),
        ),
        candidates_for(e, reading, num_candidates, skip_learning).len() > 0,
{
    let learned = learned_or_skipped(e, reading, skip_learning);
    let texts = model::model_texts(
        e.sources,
        e.model,
        reading,
        model::api_context(e.sources),
        num_candidates,
    );
    lemma_kana_forms_collected(e.sources, learned, e.mode, texts, reading);
    let all = collected(e.sources, learned, e.mode, texts, reading);
    lemma_notes_keep_key(e.sources, all, reading);
    lemma_notes_keep_key(e.sources, all, text::katakana(reading));
}

/// The reading is collected in both its forms.
proof fn lemma_kana_forms_collected(
    s: SourcesView,
    learned: Seq<AnnotatedView>,
    mode: InputMode,
    texts: Seq<Seq<char>>,
    reading: Seq<char>,
)
    requires
        mode != InputMode::Emoji,
    ensures
        distinct::has_key(collected(s, learned, mode, texts, reading), reading),
        distinct::has_key(collected(s, learned, mode, texts, reading), text::katakana(reading)),
{
    let base = distinct::extend_new(
        with_model(with_user_dict(s, learned, reading), texts),
        only(
            lookup::dict_hits(s, reading, usize::MAX as nat),
            CandidateSource::Dictionary,
        ),
    );
    let items = kana_forms(reading) + from_rules(sources::rules_for(s.rules, reading));
    assert(items[0].key() == reading);
    assert(items[1].key() == text::katakana(reading));
    distinct::law_extend_keys(base, items, reading);
    distinct::law_extend_keys(base, items, text::katakana(reading));
}

/// Descriptions do not change the texts.
proof fn lemma_notes_keep_key(s: SourcesView, list: Seq<AnnotatedView>, k: Seq<char>)
    requires
        distinct::has_key(list, k),
    ensures
        distinct::has_key(
            list.map_values(|c: AnnotatedView| script_noted(symbol_named(s, c))),
            k,
        ),
{
    let noted = list.map_values(|c: AnnotatedView| script_noted(symbol_named(s, c)));
    let i = choose|i: int| 0 <= i < list.len() && (#[trigger] list[i]).key() == k;
    assert(noted[i].key() == k);
}

/// A conversion that skips the learning cache offers nothing from it.
pub proof fn law_learning_can_be_skipped(e: EngineView, reading: Seq<char>, num_candidates: usize)
    ensures
        forall|i: int|
            0 <= i < candidates_for(e, reading, num_candidates, true).len() ==> (
            #[trigger] candidates_for(e, reading, num_candidates, true)[i]).source
                != CandidateSource::Learning,
{
    lemma_sources(e, reading, num_candidates, true);
}

/// In emoji mode the shortcode itself is not offered for its own sake.
pub proof fn law_no_shortcode_offered(
    e: EngineView,
    reading: Seq<char>,
    num_candidates: usize,
    skip_learning: bool,
)
    requires
        e.mode == InputMode::Emoji,
    ensures
        forall|i: int|
            0 <= i < candidates_for(e, reading, num_candidates, skip_learning).len() ==> (
            #[trigger] candidates_for(e, reading, num_candidates, skip_learning)[i]).source
                != CandidateSource::Fallback,
{
    lemma_sources(e, reading, num_candidates, skip_learning);
}

/// No candidate comes from this source.
spec fn none_from(list: Seq<AnnotatedView>, source: CandidateSource) -> bool {
    forall|i: int| 0 <= i < list.len() ==> (#[trigger] list[i]).source != source
}

proof fn lemma_extend_none_from(
    list: Seq<AnnotatedView>,
    items: Seq<AnnotatedView>,
    source: CandidateSource,
)
    requires
        none_from(list, source),
        none_from(items, source),
    ensures
        none_from(distinct::extend_new(list, items), source),
    decreases items.len(),
{
    if items.len() > 0 {
        assert(none_from(items.drop_last(), source));
        lemma_extend_none_from(list, items.drop_last(), source);
        assert(items[items.len() - 1].source != source);
    }
}

proof fn lemma_sources(
    e: EngineView,
    reading: Seq<char>,
    num_candidates: usize,
    skip_learning: bool,
)
    ensures
        skip_learning ==> none_from(
            candidates_for(e, reading, num_candidates, skip_learning),
            CandidateSource::Learning,
        ),
        e.mode == InputMode::Emoji ==> none_from(
            candidates_for(e, reading, num_candidates, skip_learning),
            CandidateSource::Fallback,
        ),
{
    let s = e.sources;
    let learned = learned_or_skipped(e, reading, skip_learning);
    let texts = model::model_texts(
        s,
        e.model,
        reading,
        model::api_context(s),
        num_candidates,
    );
    let dict = lookup::dict_hits(s, reading, usize::MAX as nat);
    let users = only(dict, CandidateSource::UserDictionary);
    let system = only(dict, CandidateSource::Dictionary);
    let variants = from_rules(sources::rules_for(s.rules, reading));
    let all = collected(s, learned, e.mode, texts, reading);
    lemma_only(dict, CandidateSource::UserDictionary);
    lemma_only(dict, CandidateSource::Dictionary);
    let l1 = with_user_dict(s, learned, reading);
    let l2 = with_model(l1, texts);
    let l3 = distinct::extend_new(l2, system);
    if skip_learning {
        let x = CandidateSource::Learning;
        lemma_extend_none_from(learned, users, x);
        lemma_extend_none_from(l1, from_model(texts), x);
        lemma_extend_none_from(l2, system, x);
        lemma_extend_none_from(l3, variants, x);
        lemma_extend_none_from(l3, kana_forms(reading) + variants, x);
        assert(none_from(all, x));
    }
    if e.mode == InputMode::Emoji {
        let x = CandidateSource::Fallback;
        lemma_extend_none_from(learned, users, x);
        lemma_extend_none_from(l1, from_model(texts), x);
        lemma_extend_none_from(l2, system, x);
        lemma_extend_none_from(l3, variants, x);
        assert(none_from(all, x));
    }
    lemma_notes_keep(s, all);
}

/// What the user chose last for a reading is offered first when the reading is
/// converted again.
pub proof fn law_last_choice_on_top(
    e: EngineView,
    entries: Seq<(Seq<char>, Seq<char>)>,
    reading: Seq<char>,
    surface: Seq<char>,
    num_candidates: usize,
)
    requires
        e.learning == Some(sources::learned(entries, reading, surface)),
    ensures
        candidates_for(e, reading, num_candidates, false).len() > 0,
        candidates_for(e, reading, num_candidates, false)[0].text == surface,
        candidates_for(e, reading, num_candidates, false)[0].source == CandidateSource::Learning,
{
    lookup::law_last_choice_offered_first(entries, reading, surface);
    let s = e.sources;
    let learned = learned_list(e.learning, reading);
    assert(learned[0].text == surface);
    let texts = model::model_texts(
        s,
        e.model,
        reading,
        model::api_context(s),
        num_candidates,
    );
    let dict = lookup::dict_hits(s, reading, usize::MAX as nat);
    let users = only(dict, CandidateSource::UserDictionary);
    let system = only(dict, CandidateSource::Dictionary);
    let variants = from_rules(sources::rules_for(s.rules, reading));
    let l1 = with_user_dict(s, learned, reading);
    let l2 = with_model(l1, texts);
    let l3 = distinct::extend_new(l2, system);
    let all = collected(s, learned, e.mode, texts, reading);
    lemma_extend_keeps_first(learned, users);
    lemma_extend_keeps_first(l1, from_model(texts));
    lemma_extend_keeps_first(l2, system);
    lemma_extend_keeps_first(l3, variants);
    lemma_extend_keeps_first(l3, kana_forms(reading) + variants);
    lemma_notes_keep(s, all);
}

proof fn lemma_extend_keeps_first(list: Seq<AnnotatedView>, items: Seq<AnnotatedView>)
    requires
        list.len() > 0,
    ensures
        distinct::extend_new(list, items).len() > 0,
        distinct::extend_new(list, items)[0] == list[0],
{
    distinct::law_extend_keeps_list(list, items);
    assert(distinct::extend_new(list, items).take(list.len() as int)[0] == list[0]);
}

/// A candidate that is all in one kana script never goes without a description, and
/// the name of a symbol is given only to what stands for the input itself: the others
/// have the description of a variant, a note on their script, or none.
pub proof fn law_descriptions(
    e: EngineView,
    reading: Seq<char>,
    num_candidates: usize,
    skip_learning: bool,
    i: int,
)
    requires
        0 <= i < candidates_for(e, reading, num_candidates, skip_learning).len(),
    ensures
        ({
            let c = candidates_for(e, reading, num_candidates, skip_learning)[i];
            &&& candidate::script_note(c.text) is Some ==> c.description is Some
            &&& c.source != CandidateSource::Fallback && c.source != CandidateSource::Rewriter
                ==> c.description == candidate::script_note(c.text)
        }),
{
    let s = e.sources;
    let learned = learned_or_skipped(e, reading, skip_learning);
    let texts = model::model_texts(
        s,
        e.model,
        reading,
        model::api_context(s),
        num_candidates,
    );
    let dict = lookup::dict_hits(s, reading, usize::MAX as nat);
    let users = only(dict, CandidateSource::UserDictionary);
    let system = only(dict, CandidateSource::Dictionary);
    let variants = from_rules(sources::rules_for(s.rules, reading));
    let l1 = with_user_dict(s, learned, reading);
    let l2 = with_model(l1, texts);
    let l3 = distinct::extend_new(l2, system);
    lookup::law_dict_hits(s, reading, usize::MAX as nat);
    assert(undescribed(dict));
    lemma_only_undescribed(dict, CandidateSource::UserDictionary);
    lemma_only_undescribed(dict, CandidateSource::Dictionary);
    lemma_extend_undescribed(learned, users);
    lemma_extend_undescribed(l1, from_model(texts));
    lemma_extend_undescribed(l2, system);
    lemma_extend_undescribed(l3, variants);
    lemma_extend_undescribed(l3, kana_forms(reading) + variants);
    lemma_notes_keep(s, collected(s, learned, e.mode, texts, reading));
}

/// Only a variant of the input brings a description with it.
spec fn undescribed(list: Seq<AnnotatedView>) -> bool {
    forall|i: int|
        0 <= i < list.len() ==> (#[trigger] list[i]).source == CandidateSource::Rewriter
            || list[i].description is None
}

proof fn lemma_only_undescribed(list: Seq<AnnotatedView>, source: CandidateSource)
    requires
        undescribed(list),
    ensures
        undescribed(only(list, source)),
    decreases list.len(),
{
    if list.len() > 0 {
        assert(undescribed(list.drop_last()));
        lemma_only_undescribed(list.drop_last(), source);
        assert(list[list.len() - 1].source == CandidateSource::Rewriter || list[list.len()
            - 1].description is None);
    }
}

proof fn lemma_extend_undescribed(list: Seq<AnnotatedView>, items: Seq<AnnotatedView>)
    requires
        undescribed(list),
        undescribed(items),
    ensures
        undescribed(distinct::extend_new(list, items)),
    decreases items.len(),
{
    if items.len() > 0 {
        assert(undescribed(items.drop_last()));
        lemma_extend_undescribed(list, items.drop_last());
        assert(items[items.len() - 1].source == CandidateSource::Rewriter || items[items.len()
            - 1].description is None);
    }
}

} // verus!
