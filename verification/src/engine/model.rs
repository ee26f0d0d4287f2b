//! Asking the conversion models.
use super::input_method::{EngineView, InputMethodEngine, ModelRunView, SourcesView};
use super::sources;
use super::sources::{AnswerView, KanaKanjiConverter, ModelRequest, ModelView, RequestView};
use crate::distinct;
use crate::distinct::Keyed;
use crate::text;
use crate::text::{chars_of, contains_kana, hiragana_to_katakana, text_of};
use vstd::prelude::*;

verus! {

/// Which models are asked, and for how many candidates.
#[derive(Debug, Clone, Copy, PartialEq, Eq, Structural)]
pub enum ConversionStrategy {
    /// The main model for its best candidate and the light one for several, at the
    /// same time.
    ParallelBeam { beam_width: usize },
    /// The light model for its best candidate.
    LightModelOnly,
    /// The main model for its best candidate.
    MainModelOnly,
    /// The main model for several candidates.
    MainModelBeam { beam_width: usize },
}

/// The strategy for `num_candidates`. A single candidate comes from the main model,
/// several from both, if there are both; once the main model has been slow, the light
/// one takes over.
pub open spec fn strategy_for(s: SourcesView, use_light: bool, num_candidates: usize) -> ConversionStrategy {
    if s.light is None {
        if num_candidates <= 1 {
            ConversionStrategy::MainModelOnly
        } else {
            ConversionStrategy::MainModelBeam { beam_width: num_candidates }
        }
    } else if use_light {
        ConversionStrategy::LightModelOnly
    } else if num_candidates <= 1 {
        ConversionStrategy::MainModelOnly
    } else {
        ConversionStrategy::ParallelBeam { beam_width: num_candidates }
    }
}

/// Of two lists, the texts of the first and then those of the second that are new,
/// at most `max`.
pub open spec fn merged(primary: Seq<Seq<char>>, secondary: Seq<Seq<char>>, max: nat) -> Seq<
    Seq<char>,
> {
    distinct::at_most(distinct::first_of_each(primary + secondary), max)
}

/// The texts of an answer; none if there is no answer.
pub open spec fn texts_in(a: Option<AnswerView>) -> Seq<Seq<char>> {
    match a {
        Some(a) => a.texts,
        None => Seq::empty(),
    }
}

pub open spec fn time_of(a: Option<AnswerView>) -> u64 {
    match a {
        Some(a) => a.elapsed_ms,
        None => 0,
    }
}

/// What has to be asked if there is no answer.
pub open spec fn missing(a: Option<AnswerView>, request: RequestView) -> Seq<RequestView> {
    match a {
        Some(_) => Seq::empty(),
        None => seq![request],
    }
}

/// The longer of two times.
pub open spec fn longer(a: u64, b: u64) -> u64 {
    if a < b {
        b
    } else {
        a
    }
}

/// What asking the models gives.
#[verifier::ext_equal]
pub struct RunView {
    pub texts: Seq<Seq<char>>,
    pub name: Seq<char>,
    pub elapsed_ms: u64,
    pub missing: Seq<RequestView>,
}

/// A model's answer to a question.
pub open spec fn ask(m: ModelView, katakana: Seq<char>, context: Seq<char>, n: nat) -> Option<
    AnswerView,
> {
    sources::answer_to(m.answers, katakana, context, n)
}

/// What one model gives for `n` candidates.
pub open spec fn run_one(m: ModelView, katakana: Seq<char>, context: Seq<char>, n: nat, light: bool) -> RunView {
    let a = ask(m, katakana, context, n);
    RunView {
        texts: texts_in(a),
        name: m.name,
        elapsed_ms: time_of(a),
        missing: missing(a, RequestView { katakana, context, num_candidates: n, light }),
    }
}

/// What both models give together: the main model's best candidate first, then the
/// light model's, without repetition. The time is that of the slower one.
pub open spec fn run_both(
    main: ModelView,
    light: ModelView,
    katakana: Seq<char>,
    context: Seq<char>,
    n: nat,
) -> RunView {
    let a = run_one(main, katakana, context, 1, false);
    let b = run_one(light, katakana, context, n, true);
    RunView {
        texts: merged(a.texts, b.texts, n),
        name: a.name + "+"@ + b.name,
        elapsed_ms: longer(a.elapsed_ms, b.elapsed_ms),
        missing: a.missing + b.missing,
    }
}

/// What a strategy gives; `None` if the model that it needs is not there.
pub open spec fn run_strategy(
    s: SourcesView,
    strategy: ConversionStrategy,
    katakana: Seq<char>,
    context: Seq<char>,
) -> Option<RunView> {
    match (s.kanji, s.light) {
        (None, _) => None,
        (Some(main), None) => match strategy {
            ConversionStrategy::ParallelBeam { .. } => None,
            ConversionStrategy::LightModelOnly => None,
            ConversionStrategy::MainModelOnly => Some(run_one(main, katakana, context, 1, false)),
            ConversionStrategy::MainModelBeam { beam_width } => Some(
                run_one(main, katakana, context, beam_width as nat, false),
            ),
        },
        (Some(main), Some(light)) => match strategy {
            ConversionStrategy::ParallelBeam { beam_width } => Some(
                run_both(main, light, katakana, context, beam_width as nat),
            ),
            ConversionStrategy::LightModelOnly => Some(run_one(light, katakana, context, 1, true)),
            ConversionStrategy::MainModelOnly => Some(run_one(main, katakana, context, 1, false)),
            ConversionStrategy::MainModelBeam { beam_width } => Some(
                run_one(main, katakana, context, beam_width as nat, false),
            ),
        },
    }
}

/// Whether the light model is to take over after a run: if the main model was part
/// of it and it took too long.
pub open spec fn light_after(
    s: SourcesView,
    use_light: bool,
    strategy: ConversionStrategy,
    elapsed_ms: u64,
) -> bool {
    use_light || (strategy != ConversionStrategy::LightModelOnly && s.config.max_latency_ms > 0
        && elapsed_ms > s.config.max_latency_ms)
}

/// The run of the models for a reading: none for a reading without kana, none
/// without the main model.
pub open spec fn model_run(
    s: SourcesView,
    m: ModelRunView,
    reading: Seq<char>,
    context: Seq<char>,
    num_candidates: usize,
) -> Option<RunView> {
    if text::has_kana(reading) {
        run_strategy(
            s,
            strategy_for(s, m.use_light, num_candidates),
            text::katakana(reading),
            context,
        )
    } else {
        None
    }
}

/// The texts that the models give for a reading.
pub open spec fn model_texts(
    s: SourcesView,
    m: ModelRunView,
    reading: Seq<char>,
    context: Seq<char>,
    num_candidates: usize,
) -> Seq<Seq<char>> {
    match model_run(s, m, reading, context, num_candidates) {
        Some(r) => r.texts,
        None => Seq::empty(),
    }
}

/// What asking the models for a reading leaves behind.
pub open spec fn after_run(
    s: SourcesView,
    m: ModelRunView,
    reading: Seq<char>,
    context: Seq<char>,
    num_candidates: usize,
) -> ModelRunView {
    match model_run(s, m, reading, context, num_candidates) {
        Some(r) => ModelRunView {
            name: r.name,
            conversion_ms: r.elapsed_ms,
            use_light: light_after(
                s,
                m.use_light,
                strategy_for(s, m.use_light, num_candidates),
                r.elapsed_ms,
            ),
            requests: m.requests + r.missing,
            wanted: m.wanted,
        },
        None => m,
    }
}

/// What remains when the main model has been looked for: whether it is missing.
pub open spec fn sought(s: SourcesView, m: ModelRunView) -> ModelRunView {
    ModelRunView { wanted: m.wanted || s.kanji is None, ..m }
}

/// The last `n` characters of a text, or all of a shorter one.
pub open spec fn last_chars(s: Seq<char>, n: nat) -> Seq<char> {
    if s.len() <= n {
        s
    } else {
        s.skip(s.len() - n)
    }
}

/// The left context that the models get.
pub open spec fn api_context(s: SourcesView) -> Seq<char> {
    last_chars(s.context, s.config.max_api_context_len as nat)
}

/// What asking the models gave.
struct Run {
    texts: Vec<String>,
    name: String,
    elapsed_ms: u64,
    missing: Vec<ModelRequest>,
}

impl View for Run {
    type V = RunView;

    closed spec fn view(&self) -> RunView {
        RunView {
            texts: sources::texts(self.texts@),
            name: self.name@,
            elapsed_ms: self.elapsed_ms,
            missing: sources::request_views(self.missing@),
        }
    }
}

fn copy_texts(v: &Vec<String>) -> (r: Vec<String>)
    ensures
        r@ == v@,
{
    let mut r: Vec<String> = Vec::new();
    let mut i: usize = 0;
    while i < v.len()
        invariant
            i <= v.len(),
            r@ == v@.take(i as int),
        decreases v.len() - i,
    {
        r.push(v[i].clone());
        i += 1;
    }
    assert(r@ =~= v@);
    r
}

/// Asks one model for `n` candidates.
fn run_model(
    model: &KanaKanjiConverter,
    katakana: &str,
    context: &str,
    n: usize,
    light: bool,
) -> (r: Run)
    ensures
        r@ == run_one(model@, katakana@, context@, n as nat, light),
{
    let name = model.display_name.clone();
    match model.convert(katakana, context, n) {
        Some(answer) => {
            let r = Run {
                texts: copy_texts(&answer.texts),
                name,
                elapsed_ms: answer.elapsed_ms,
                missing: Vec::new(),
            };
            assert(r@ =~= run_one(model@, katakana@, context@, n as nat, light));
            r
        },
        None => {
            let request = ModelRequest {
                katakana: katakana.to_owned(),
                context: context.to_owned(),
                num_candidates: n,
                light,
            };
            let r = Run { texts: Vec::new(), name, elapsed_ms: 0, missing: vec![request] };
            assert(r@ =~= run_one(model@, katakana@, context@, n as nat, light));
            r
        },
    }
}

/// Asks both models, the main one for its best candidate and the light one for `n`.
fn run_models(
    main: &KanaKanjiConverter,
    light: &KanaKanjiConverter,
    katakana: &str,
    context: &str,
    n: usize,
) -> (r: Run)
    ensures
        r@ == run_both(main@, light@, katakana@, context@, n as nat),
{
    let a = run_model(main, katakana, context, 1, false);
    let b = run_model(light, katakana, context, n, true);
    let ghost av = a@;
    let ghost bv = b@;
    let name = a.name.concat("+").concat(b.name.as_str());
    let elapsed_ms = if a.elapsed_ms < b.elapsed_ms {
        b.elapsed_ms
    } else {
        a.elapsed_ms
    };
    let mut missing = a.missing;
    let mut more = b.missing;
    missing.append(&mut more);
    let texts = InputMethodEngine::merge_candidates_dedup(a.texts, b.texts, n);
    let r = Run { texts, name, elapsed_ms, missing };
    assert(r@.missing =~= av.missing + bv.missing);
    assert(r@ =~= run_both(main@, light@, katakana@, context@, n as nat));
    r
}

fn contains_text(v: &Vec<String>, t: &String) -> (r: bool)
    ensures
        r == distinct::has_key(sources::texts(v@), t@),
{
    let ghost all = sources::texts(v@);
    let mut i: usize = 0;
    while i < v.len()
        invariant
            i <= v.len(),
            all == sources::texts(v@),
            forall|j: int| 0 <= j < i ==> distinct::Keyed::key(#[trigger] all[j]) != t@,
        decreases v.len() - i,
    {
        if v[i] == *t {
            assert(distinct::Keyed::key(all[i as int]) == t@);
            return true;
        }
        i += 1;
    }
    false
}

/// Adds the texts that are new, as long as there are fewer than `max`.
fn append_new(out: &mut Vec<String>, items: &Vec<String>, max: usize)
    requires
        old(out).len() <= max,
    ensures
        final(out).len() <= max,
        sources::texts(final(out)@) == distinct::at_most(
            distinct::extend_new(sources::texts(old(out)@), sources::texts(items@)),
            max as nat,
        ),
{
    let ghost base = sources::texts(out@);
    let ghost all = sources::texts(items@);
    let mut i: usize = 0;
    assert(all.take(0) =~= Seq::empty());
    while i < items.len()
        invariant
            i <= items.len(),
            out.len() <= max,
            all == sources::texts(items@),
            sources::texts(out@) == distinct::at_most(
                distinct::extend_new(base, all.take(i as int)),
                max as nat,
            ),
        decreases items.len() - i,
    {
        let ghost before = sources::texts(out@);
        proof {
            distinct::lemma_extend_step(base, all, i as int);
            distinct::lemma_cut_then_push(
                distinct::extend_new(base, all.take(i as int)),
                all[i as int],
                max as nat,
            );
        }
        if out.len() < max {
            if !contains_text(out, &items[i]) {
                let t = items[i].clone();
                out.push(t);
                assert(sources::texts(out@) =~= before.push(t@));
            }
        } else {
            assert(distinct::at_most(distinct::push_new(before, all[i as int]), max as nat)
                =~= before);
        }
        i += 1;
    }
    assert(all.take(i as int) =~= all);
}

impl InputMethodEngine {
    /// Merges two lists of texts: those of the first, then those of the second that
    /// are new, at most `max_candidates` in all.
    pub fn merge_candidates_dedup(
        primary: Vec<String>,
        secondary: Vec<String>,
        max_candidates: usize,
    ) -> (r: Vec<String>)
        ensures
            sources::texts(r@) == merged(
                sources::texts(primary@),
                sources::texts(secondary@),
                max_candidates as nat,
            ),
    {
        let mut r: Vec<String> = Vec::new();
        assert(sources::texts(r@) =~= Seq::empty());
        append_new(&mut r, &primary, max_candidates);
        append_new(&mut r, &secondary, max_candidates);
        proof {
            let a = sources::texts(primary@);
            let b = sources::texts(secondary@);
            distinct::lemma_cut_then_extend(
                distinct::first_of_each(a),
                b,
                max_candidates as nat,
            );
            distinct::lemma_extend_concat(Seq::empty(), a, b);
        }
        r
    }

    /// Which models to ask for `num_candidates` of a reading. The reading itself does
    /// not enter into it: the number of candidates is not cut down for a long one.
    pub fn determine_strategy(&self, _reading: &str, num_candidates: usize) -> (r:
        ConversionStrategy)
        ensures
            r == strategy_for(self@.sources, self@.model.use_light, num_candidates),
    {
        if self.converters.light_kanji.is_none() {
            if num_candidates <= 1 {
                ConversionStrategy::MainModelOnly
            } else {
                ConversionStrategy::MainModelBeam { beam_width: num_candidates }
            }
        } else if self.adaptive_use_light_model {
            ConversionStrategy::LightModelOnly
        } else if num_candidates <= 1 {
            ConversionStrategy::MainModelOnly
        } else {
            ConversionStrategy::ParallelBeam { beam_width: num_candidates }
        }
    }

    /// Looks for the main model, and notes if it is not loaded.
    pub fn ensure_kanji_converter(&mut self)
        ensures
            final(self)@ == (EngineView {
                model: sought(old(self)@.sources, old(self)@.model),
                ..old(self)@
            }),
    {
        if self.converters.kanji.is_none() {
            self.model_wanted = true;
        }
    }

    /// Hands over to the light model if the main model was slow.
    fn update_adaptive_model_flag(&mut self, strategy: &ConversionStrategy)
        ensures
            final(self)@ == (EngineView {
                model: ModelRunView {
                    use_light: light_after(
                        old(self)@.sources,
                        old(self)@.model.use_light,
                        *strategy,
                        old(self)@.model.conversion_ms,
                    ),
                    ..old(self)@.model
                },
                ..old(self)@
            }),
    {
        if *strategy != ConversionStrategy::LightModelOnly && self.config.max_latency_ms > 0
            && self.metrics.conversion_ms > self.config.max_latency_ms {
            self.adaptive_use_light_model = true;
        }
    }

    /// Runs the models for a reading and returns the texts that they give, with
    /// `api_context` as left context. A reading without kana is not given to a model:
    /// for symbols and letters it would make something up.
    pub fn run_kana_kanji_conversion(
        &mut self,
        reading: &str,
        api_context: &str,
        num_candidates: usize,
    ) -> (r: Vec<String>)
        ensures
            sources::texts(r@) == model_texts(
                old(self)@.sources,
                old(self)@.model,
                reading@,
                api_context@,
                num_candidates,
            ),
            final(self)@ == (EngineView {
                model: after_run(
                    old(self)@.sources,
                    old(self)@.model,
                    reading@,
                    api_context@,
                    num_candidates,
                ),
                ..old(self)@
            }),
    {
        let none: Vec<String> = Vec::new();
        assert(sources::texts(none@) =~= Seq::empty());
        if !contains_kana(reading) {
            return none;
        }
        let strategy = self.determine_strategy(reading, num_candidates);
        let katakana = hiragana_to_katakana(reading);
        let run = match &self.converters.kanji {
            None => {
                return none;
            },
            Some(main) => match strategy {
                ConversionStrategy::ParallelBeam { beam_width } => {
                    match &self.converters.light_kanji {
                        None => {
                            return none;
                        },
                        Some(light) => run_models(
                            main,
                            light,
                            katakana.as_str(),
                            api_context,
                            beam_width,
                        ),
                    }
                },
                ConversionStrategy::LightModelOnly => {
                    match &self.converters.light_kanji {
                        None => {
                            return none;
                        },
                        Some(light) => run_model(light, katakana.as_str(), api_context, 1, true),
                    }
                },
                ConversionStrategy::MainModelOnly => run_model(
                    main,
                    katakana.as_str(),
                    api_context,
                    1,
                    false,
                ),
                ConversionStrategy::MainModelBeam { beam_width } => run_model(
                    main,
                    katakana.as_str(),
                    api_context,
                    beam_width,
                    false,
                ),
            },
        };
        let ghost before = self@;
        let ghost rv = run@;
        assert(Some(rv) == model_run(
            before.sources,
            before.model,
            reading@,
            api_context@,
            num_candidates,
        ));
        self.metrics.conversion_ms = run.elapsed_ms;
        self.update_adaptive_model_flag(&strategy);
        self.metrics.model_name = run.name;
        let mut missing = run.missing;
        self.requests.append(&mut missing);
        assert(sources::request_views(self.requests@) =~= before.model.requests + rv.missing);
        run.texts
    }

    /// The left context for the models: the end of the text to the left of the input.
    pub fn truncate_context_for_api(&self) -> (r: String)
        ensures
            r@ == api_context(self@.sources),
    {
        let chars = chars_of(self.context.as_str());
        let n = self.config.max_api_context_len;
        if chars.len() <= n {
            return self.context.clone();
        }
        let start = chars.len() - n;
        let mut r: Vec<char> = Vec::new();
        let mut i: usize = start;
        while i < chars.len()
            invariant
                start <= i <= chars.len(),
                r@ == chars@.subrange(start as int, i as int),
            decreases chars.len() - i,
        {
            r.push(chars[i]);
            i += 1;
            assert(r@ =~= chars@.subrange(start as int, i as int));
        }
        assert(r@ =~= chars@.skip(start as int));
        text_of(r.as_slice())
    }
}

/// Merging repeats no text, keeps to the limit, and has the first list at its front.
pub proof fn law_merged(primary: Seq<Seq<char>>, secondary: Seq<Seq<char>>, max: nat)
    ensures
        distinct::all_distinct(merged(primary, secondary, max)),
        merged(primary, secondary, max).len() <= max,
        merged(primary, secondary, max).take(
            distinct::at_most(distinct::first_of_each(primary), max).len() as int,
        ) == distinct::at_most(distinct::first_of_each(primary), max),
{
    let none = Seq::<Seq<char>>::empty();
    let first = distinct::first_of_each(primary);
    let all = distinct::first_of_each(primary + secondary);
    distinct::law_extend_distinct(none, primary + secondary);
    distinct::lemma_at_most_distinct(all, max);
    distinct::lemma_extend_concat(none, primary, secondary);
    distinct::law_extend_keeps_list(first, secondary);
    let cut = distinct::at_most(first, max);
    assert forall|j: int| 0 <= j < cut.len() implies all[j] == cut[j] by {
        assert(all.take(first.len() as int)[j] == first[j]);
    }
    assert(merged(primary, secondary, max).take(cut.len() as int) =~= cut);
}

/// A reading without kana never reaches a model.
pub proof fn law_no_kana_no_model(
    s: SourcesView,
    m: ModelRunView,
    reading: Seq<char>,
    context: Seq<char>,
    num_candidates: usize,
)
    requires
        !text::has_kana(reading),
    ensures
        model_texts(s, m, reading, context, num_candidates).len() == 0,
        after_run(s, m, reading, context, num_candidates) == m,
{
}

/// `a` is the first answer that the model has for this reading, this context and this
/// number of candidates.
pub open spec fn answers_with(
    m: ModelView,
    katakana: Seq<char>,
    context: Seq<char>,
    n: nat,
    a: AnswerView,
) -> bool {
    exists|i: int|
        0 <= i < m.answers.len() && #[trigger] m.answers[i] == a && sources::answers_question(
            a,
            katakana,
            context,
            n,
        ) && forall|j: int|
            0 <= j < i ==> !sources::answers_question(
                #[trigger] m.answers[j],
                katakana,
                context,
                n,
            )
}

/// The model has no answer for this reading, this context and this number of candidates.
pub open spec fn has_no_answer(m: ModelView, katakana: Seq<char>, context: Seq<char>, n: nat) -> bool {
    forall|i: int|
        0 <= i < m.answers.len() ==> !sources::answers_question(
            #[trigger] m.answers[i],
            katakana,
            context,
            n,
        )
}

/// How many candidates the main model is asked for: as many as are wanted where it is
/// alone, and otherwise its best one.
pub open spec fn asked_of_main(s: SourcesView, num_candidates: usize) -> nat {
    if s.light is None && num_candidates > 1 {
        num_candidates as nat
    } else {
        1
    }
}

/// The main model works alone: there is no light one, or only one candidate is wanted
/// and the main model has not been slow.
pub open spec fn main_alone(s: SourcesView, use_light: bool, num_candidates: usize) -> bool {
    s.kanji is Some && (s.light is None || (!use_light && num_candidates <= 1))
}

/// The light model works alone: the main one has been slow.
pub open spec fn light_alone(s: SourcesView, use_light: bool) -> bool {
    s.kanji is Some && s.light is Some && use_light
}

/// Both models work: several candidates are wanted, and the main one has not been slow.
pub open spec fn both_work(s: SourcesView, use_light: bool, num_candidates: usize) -> bool {
    s.kanji is Some && s.light is Some && !use_light && num_candidates > 1
}

/// What a model that works alone answers is what is given, as it is. A slow answer of the
/// main model makes the light one take over for good.
pub proof fn law_one_model_answers(
    s: SourcesView,
    m: ModelRunView,
    reading: Seq<char>,
    context: Seq<char>,
    num_candidates: usize,
    a: AnswerView,
)
    requires
        text::has_kana(reading),
    ensures
        main_alone(s, m.use_light, num_candidates) && answers_with(
            s.kanji->0,
            text::katakana(reading),
            context,
            asked_of_main(s, num_candidates),
            a,
        ) ==> {
            let after = after_run(s, m, reading, context, num_candidates);
            &&& model_texts(s, m, reading, context, num_candidates) == a.texts
            &&& after.name == s.kanji->0.name
            &&& after.conversion_ms == a.elapsed_ms
            &&& after.requests == m.requests
            &&& after.wanted == m.wanted
            &&& after.use_light <==> m.use_light || (0 < s.config.max_latency_ms < a.elapsed_ms)
        },
        light_alone(s, m.use_light) && answers_with(
            s.light->0,
            text::katakana(reading),
            context,
            1,
            a,
        ) ==> {
            let after = after_run(s, m, reading, context, num_candidates);
            &&& model_texts(s, m, reading, context, num_candidates) == a.texts
            &&& after.name == s.light->0.name
            &&& after.conversion_ms == a.elapsed_ms
            &&& after.requests == m.requests
            &&& after.wanted == m.wanted
            &&& after.use_light
        },
{
    let k = text::katakana(reading);
    if s.kanji is Some {
        sources::law_answer_to(s.kanji->0.answers, k, context, asked_of_main(s, num_candidates));
    }
    if s.light is Some {
        sources::law_answer_to(s.light->0.answers, k, context, 1);
    }
    assert(m.requests + Seq::<RequestView>::empty() =~= m.requests);
}

/// Where both models work, each text that is given is in one of the two answers; the main
/// model's come first, each answer's in its order, and none twice. Fewer than are wanted
/// are given only if there are no more. The slower one counts.
pub proof fn law_both_models_answer(
    s: SourcesView,
    m: ModelRunView,
    reading: Seq<char>,
    context: Seq<char>,
    num_candidates: usize,
    a: AnswerView,
    b: AnswerView,
)
    requires
        text::has_kana(reading),
        both_work(s, m.use_light, num_candidates),
        answers_with(s.kanji->0, text::katakana(reading), context, 1, a),
        answers_with(s.light->0, text::katakana(reading), context, num_candidates as nat, b),
    ensures
        ({
            let texts = model_texts(s, m, reading, context, num_candidates);
            let after = after_run(s, m, reading, context, num_candidates);
            let slower = if a.elapsed_ms < b.elapsed_ms {
                b.elapsed_ms
            } else {
                a.elapsed_ms
            };
            &&& texts.len() <= num_candidates
            &&& texts.len() < num_candidates ==> forall|t: Seq<char>|
                #![trigger texts.contains(t)]
                a.texts.contains(t) || b.texts.contains(t) ==> texts.contains(t)
            &&& forall|i: int|
                0 <= i < texts.len() ==> a.texts.contains(#[trigger] texts[i]) || b.texts.contains(
                    texts[i],
                )
            &&& forall|i: int, j: int|
                0 <= i < j < texts.len() ==> distinct::first_place(
                    a.texts + b.texts,
                    #[trigger] texts[i],
                ) < distinct::first_place(a.texts + b.texts, #[trigger] texts[j])
            &&& a.texts.len() > 0 ==> texts.len() > 0 && texts[0] == a.texts[0]
            &&& after.name == s.kanji->0.name + "+"@ + s.light->0.name
            &&& after.conversion_ms == slower
            &&& after.requests == m.requests
            &&& after.wanted == m.wanted
            &&& after.use_light <==> 0 < s.config.max_latency_ms < slower
        }),
{
    let k = text::katakana(reading);
    sources::law_answer_to(s.kanji->0.answers, k, context, 1);
    sources::law_answer_to(s.light->0.answers, k, context, num_candidates as nat);
    assert(m.requests + (Seq::<RequestView>::empty() + Seq::<RequestView>::empty()) =~= m.requests);
    let none = Seq::<Seq<char>>::empty();
    let both = a.texts + b.texts;
    let all = distinct::first_of_each(both);
    let texts = model_texts(s, m, reading, context, num_candidates);
    distinct::law_extend_order(none, both);
    distinct::law_at_most(all, num_candidates as nat);
    assert forall|i: int| 0 <= i < texts.len() implies a.texts.contains(#[trigger] texts[i])
        || b.texts.contains(texts[i]) by {
        assert(texts[i] == all[i]);
        assert(all[i].key() == all[i]);
        let p = distinct::first_place(both, all[i]);
        if p < a.texts.len() {
            assert(a.texts[p] == all[i]);
        } else {
            assert(b.texts[p - a.texts.len()] == all[i]);
        }
    }
    assert forall|i: int, j: int| 0 <= i < j < texts.len() implies distinct::first_place(
        both,
        #[trigger] texts[i],
    ) < distinct::first_place(both, #[trigger] texts[j]) by {
        assert(all[i].key() == texts[i]);
        assert(all[j].key() == texts[j]);
    }
    if texts.len() < num_candidates {
        assert(texts == all);
        assert forall|t: Seq<char>|
            #![trigger texts.contains(t)]
            a.texts.contains(t) || b.texts.contains(t) implies texts.contains(t) by {
            if a.texts.contains(t) {
                let i = choose|i: int| 0 <= i < a.texts.len() && a.texts[i] == t;
                assert(both[i].key() == t);
            } else {
                let i = choose|i: int| 0 <= i < b.texts.len() && b.texts[i] == t;
                assert(both[a.texts.len() + i].key() == t);
            }
            distinct::law_extend_keys(none, both, t);
            let j = choose|j: int| 0 <= j < all.len() && (#[trigger] all[j]).key() == t;
            assert(texts[j] == t);
        }
    }
    if a.texts.len() > 0 {
        let t = a.texts[0];
        assert(both[0].key() == t);
        assert(distinct::has_key(both, t));
        distinct::law_extend_keys(none, both, t);
        let j = choose|j: int| 0 <= j < all.len() && (#[trigger] all[j]).key() == t;
        distinct::law_first_place(both, t);
        assert(distinct::first_place(both, t) == 0);
        if j > 0 {
            assert(all[0].key() == all[0]);
            assert(distinct::first_place(both, all[0].key()) < distinct::first_place(
                both,
                all[j].key(),
            ));
        }
    }
}

/// A question that a model has no answer for is noted, and nothing is given for it.
pub proof fn law_question_is_noted(
    s: SourcesView,
    m: ModelRunView,
    reading: Seq<char>,
    context: Seq<char>,
    num_candidates: usize,
)
    requires
        text::has_kana(reading),
        s.kanji is Some,
        has_no_answer(
            s.kanji->0,
            text::katakana(reading),
            context,
            asked_of_main(s, num_candidates),
        ),
        s.light is Some ==> has_no_answer(s.light->0, text::katakana(reading), context, 1)
            && has_no_answer(
            s.light->0,
            text::katakana(reading),
            context,
            num_candidates as nat,
        ),
    ensures
        model_texts(s, m, reading, context, num_candidates).len() == 0,
        after_run(s, m, reading, context, num_candidates).requests == m.requests + (if light_alone(
            s,
            m.use_light,
        ) {
            seq![
                RequestView {
                    katakana: text::katakana(reading),
                    context,
                    num_candidates: 1,
                    light: true,
                },
            ]
        } else if both_work(s, m.use_light, num_candidates) {
            seq![
                RequestView {
                    katakana: text::katakana(reading),
                    context,
                    num_candidates: 1,
                    light: false,
                },
                RequestView {
                    katakana: text::katakana(reading),
                    context,
                    num_candidates: num_candidates as nat,
                    light: true,
                },
            ]
        } else {
            seq![
                RequestView {
                    katakana: text::katakana(reading),
                    context,
                    num_candidates: asked_of_main(s, num_candidates),
                    light: false,
                },
            ]
        }),
        after_run(s, m, reading, context, num_candidates).use_light == m.use_light,
{
    let k = text::katakana(reading);
    sources::law_answer_to(s.kanji->0.answers, k, context, asked_of_main(s, num_candidates));
    if s.light is Some {
        sources::law_answer_to(s.light->0.answers, k, context, 1);
        sources::law_answer_to(s.light->0.answers, k, context, num_candidates as nat);
        if both_work(s, m.use_light, num_candidates) {
            let a = RequestView { katakana: k, context, num_candidates: 1, light: false };
            let b = RequestView {
                katakana: k,
                context,
                num_candidates: num_candidates as nat,
                light: true,
            };
            assert(seq![a] + seq![b] =~= seq![a, b]);
            let none = Seq::<Seq<char>>::empty();
            assert(none + none =~= none);
            assert(distinct::first_of_each(none + none).len() == 0);
        }
    }
}

/// The models get the end of the left context, as long as is allowed.
pub proof fn law_context_is_the_end(s: SourcesView)
    ensures
        api_context(s).len() == if s.context.len() <= s.config.max_api_context_len {
            s.context.len()
        } else {
            s.config.max_api_context_len as nat
        },
        forall|i: int|
            0 <= i < api_context(s).len() ==> #[trigger] api_context(s)[i] == s.context[s.context.len()
                - api_context(s).len() + i],
{
}

} // verus!
