//! The engine: what it holds, and the states it can be in.
use super::preedit::Preedit;
use super::sources;
use super::sources::{
    DictEntryView, Dictionary, KanaKanjiConverter, LearningCache, ModelRequest, ModelView,
    RequestView, Rewriters, RuleView, Symbols,
};
use super::state;
use super::state::{ConversionSegment, InputMode, InputState, SegmentView, StateView};
use crate::romaji::converter::{RomajiConverter, RomajiView};
use vstd::prelude::*;

verus! {

/// Settings.
#[derive(Debug, Clone, Copy, PartialEq, Eq, Structural)]
pub struct EngineConfig {
    /// How many candidates an explicit conversion asks the model for.
    pub num_candidates: usize,
    /// Whether readings with typing slips are repaired.
    pub fuzzy_repair_enabled: bool,
    /// How many characters of left context the model gets.
    pub max_api_context_len: usize,
    /// From what time on the main model counts as slow; 0 for never.
    pub max_latency_ms: u64,
}

/// The reading being typed, and the place of the caret in it, counted in characters.
#[derive(Debug, Clone)]
pub struct InputBuffer {
    pub text: String,
    pub cursor_pos: usize,
}

/// The conversion shown while typing.
#[derive(Debug, Clone)]
pub struct LiveConversion {
    pub text: String,
}

/// What is known of the last conversion and the last key.
#[derive(Debug, Clone)]
pub struct Metrics {
    /// How long the model took.
    pub conversion_ms: u64,
    /// How long the key took as a whole.
    pub process_key_ms: u64,
    /// Which model was used.
    pub model_name: String,
}

/// What turns keys into kana and kana into other texts.
#[derive(Debug, Clone)]
pub struct Converters {
    pub romaji: RomajiConverter,
    /// The main model, if it is loaded.
    pub kanji: Option<KanaKanjiConverter>,
    /// The light model, if it is loaded.
    pub light_kanji: Option<KanaKanjiConverter>,
    pub rewriters: Rewriters,
    pub symbols: Symbols,
}

/// The dictionaries.
#[derive(Debug, Clone)]
pub struct Dictionaries {
    pub user: Option<Dictionary>,
    pub system: Option<Dictionary>,
}

/// The input method engine.
#[derive(Debug, Clone)]
pub struct InputMethodEngine {
    pub config: EngineConfig,
    pub input_mode: InputMode,
    pub input_buf: InputBuffer,
    pub live: LiveConversion,
    pub state: InputState,
    /// The parts of the input that are being converted.
    pub segments: Vec<ConversionSegment>,
    /// The part that the keys act on.
    pub current_segment: usize,
    pub converters: Converters,
    pub dicts: Dictionaries,
    pub learning: Option<LearningCache>,
    /// The text to the left of the input.
    pub context: String,
    pub metrics: Metrics,
    /// The main model has been slow: the light one takes over.
    pub adaptive_use_light_model: bool,
    /// The questions to the models that no known answer was found for.
    pub requests: Vec<ModelRequest>,
    /// The main model was looked for and is not loaded.
    pub model_wanted: bool,
}

/// What conversions draw on and no key changes.
#[verifier::ext_equal]
pub struct SourcesView {
    pub config: EngineConfig,
    pub context: Seq<char>,
    pub user: Option<Seq<DictEntryView>>,
    pub system: Option<Seq<DictEntryView>>,
    pub kanji: Option<ModelView>,
    pub light: Option<ModelView>,
    pub rules: Seq<RuleView>,
    pub symbols: Seq<(Seq<char>, Seq<char>)>,
}

/// What asking the models leaves behind.
#[verifier::ext_equal]
pub struct ModelRunView {
    pub name: Seq<char>,
    pub conversion_ms: u64,
    pub use_light: bool,
    pub requests: Seq<RequestView>,
    pub wanted: bool,
}

/// The engine.
#[verifier::ext_equal]
pub struct EngineView {
    pub sources: SourcesView,
    pub model: ModelRunView,
    pub learning: Option<Seq<(Seq<char>, Seq<char>)>>,
    pub mode: InputMode,
    pub text: Seq<char>,
    pub cursor: int,
    pub romaji: RomajiView,
    pub live: Seq<char>,
    pub state: StateView,
    pub segments: Seq<SegmentView>,
    pub current: int,
    /// How long the last key took.
    pub key_ms: u64,
}

pub open spec fn optional_dict(d: Option<Dictionary>) -> Option<Seq<DictEntryView>> {
    match d {
        Some(d) => Some(d@),
        None => None,
    }
}

pub open spec fn optional_model(m: Option<KanaKanjiConverter>) -> Option<ModelView> {
    match m {
        Some(m) => Some(m@),
        None => None,
    }
}

pub open spec fn optional_cache(c: Option<LearningCache>) -> Option<Seq<(Seq<char>, Seq<char>)>> {
    match c {
        Some(c) => Some(c@),
        None => None,
    }
}

impl EngineView {
    /// What holds of the engine between keys: the caret is in the text; a conversion
    /// has segments, the current one among them, whose candidates the state shows;
    /// and without a conversion there are no segments.
    pub open spec fn wf(self) -> bool {
        &&& 0 <= self.cursor <= self.text.len()
        &&& match self.state {
            StateView::Conversion { preedit, candidates } => {
                &&& self.cursor == 0
                &&& 0 <= self.current < self.segments.len()
                &&& self.segments[self.current].candidates == candidates
                &&& forall|i: int|
                    0 <= i < self.segments.len() ==> (#[trigger] self.segments[i]).candidates.wf()
            },
            _ => self.segments.len() == 0 && self.current == 0,
        }
    }
}

impl View for InputMethodEngine {
    type V = EngineView;

    open spec fn view(&self) -> EngineView {
        EngineView {
            sources: SourcesView {
                config: self.config,
                context: self.context@,
                user: optional_dict(self.dicts.user),
                system: optional_dict(self.dicts.system),
                kanji: optional_model(self.converters.kanji),
                light: optional_model(self.converters.light_kanji),
                rules: self.converters.rewriters@,
                symbols: self.converters.symbols@,
            },
            model: ModelRunView {
                name: self.metrics.model_name@,
                conversion_ms: self.metrics.conversion_ms,
                use_light: self.adaptive_use_light_model,
                requests: sources::request_views(self.requests@),
                wanted: self.model_wanted,
            },
            learning: optional_cache(self.learning),
            mode: self.input_mode,
            text: self.input_buf.text@,
            cursor: self.input_buf.cursor_pos as int,
            romaji: self.converters.romaji@,
            live: self.live.text@,
            state: self.state@,
            segments: state::segment_views(self.segments@),
            current: self.current_segment as int,
            key_ms: self.metrics.process_key_ms,
        }
    }
}

/// The engine at the start: nothing typed, nothing loaded.
pub open spec fn fresh_engine(config: EngineConfig) -> EngineView {
    EngineView {
        sources: SourcesView {
            config,
            context: Seq::empty(),
            user: None,
            system: None,
            kanji: None,
            light: None,
            rules: Seq::empty(),
            symbols: Seq::empty(),
        },
        model: ModelRunView {
            name: Seq::empty(),
            conversion_ms: 0,
            use_light: false,
            requests: Seq::empty(),
            wanted: false,
        },
        learning: None,
        mode: InputMode::Hiragana,
        text: Seq::empty(),
        cursor: 0,
        romaji: RomajiView::empty(),
        live: Seq::empty(),
        state: StateView::Empty,
        segments: Seq::empty(),
        current: 0,
        key_ms: 0,
    }
}

impl EngineConfig {
    /// The settings that the engine starts with.
    pub open spec fn standard() -> EngineConfig {
        EngineConfig {
            num_candidates: 9,
            fuzzy_repair_enabled: true,
            max_api_context_len: 10,
            max_latency_ms: 0,
        }
    }
}

impl InputMethodEngine {
    /// An engine with nothing typed and nothing loaded.
    pub fn new() -> (r: Self)
        ensures
            r@ == fresh_engine(EngineConfig::standard()),
            r@.wf(),
    {
        let r = InputMethodEngine {
            config: EngineConfig {
                num_candidates: 9,
                fuzzy_repair_enabled: true,
                max_api_context_len: 10,
                max_latency_ms: 0,
            },
            input_mode: InputMode::Hiragana,
            input_buf: InputBuffer { text: String::new(), cursor_pos: 0 },
            live: LiveConversion { text: String::new() },
            state: InputState::Empty,
            segments: Vec::new(),
            current_segment: 0,
            converters: Converters {
                romaji: RomajiConverter::new(),
                kanji: None,
                light_kanji: None,
                rewriters: Rewriters { rules: Vec::new() },
                symbols: Symbols { names: Vec::new() },
            },
            dicts: Dictionaries { user: None, system: None },
            learning: None,
            context: String::new(),
            metrics: Metrics { conversion_ms: 0, process_key_ms: 0, model_name: String::new() },
            adaptive_use_light_model: false,
            requests: Vec::new(),
            model_wanted: false,
        };
        assert(r@ =~= fresh_engine(EngineConfig::standard()));
        r
    }

    /// What the engine is doing.
    pub fn state(&self) -> (r: &InputState)
        ensures
            r@ == self@.state,
    {
        &self.state
    }

    /// The preedit, unless nothing is being typed or converted.
    pub fn preedit(&self) -> (r: Option<&Preedit>)
        ensures
            match self@.state {
                StateView::Empty => r is None,
                StateView::Composing { preedit, .. } => r is Some && r->0@ == preedit,
                StateView::Conversion { preedit, .. } => r is Some && r->0@ == preedit,
            },
    {
        match &self.state {
            InputState::Empty => None,
            InputState::Composing { preedit, .. } => Some(preedit),
            InputState::Conversion { preedit, .. } => Some(preedit),
        }
    }
}

} // verus!
