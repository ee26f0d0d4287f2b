//! The input method engine.
pub mod borders;
pub mod candidate;
pub mod clock;
pub mod collect;
pub mod commit;
pub mod composing;
pub mod conversion;
pub mod endings;
pub mod fuzzy;
pub mod input_method;
pub mod keyboard;
pub mod keys;
pub mod lookup;
pub mod model;
pub mod offers;
pub mod preedit;
pub mod presses;
pub mod repairs;
pub mod segments;
pub mod sources;
pub mod starts;
pub mod state;

pub use candidate::{
    AnnotatedCandidate, Candidate, CandidateBuilder, CandidateList, CandidateSource,
};
pub use input_method::{
    Converters, Dictionaries, EngineConfig, InputBuffer, InputMethodEngine, LiveConversion,
    Metrics,
};
pub use keyboard::CandidateStep;
pub use keys::{KeyEvent, KeyModifiers, Keysym};
pub use model::ConversionStrategy;
pub use preedit::{AttributeType, Preedit, PreeditSegment};
pub use sources::{
    DictCandidate, DictEntry, Dictionary, KanaKanjiConverter, LearnedEntry, LearningCache,
    ModelAnswer, ModelRequest, RewriteRule, Rewriters, SymbolName, Symbols,
};
pub use state::{ConversionSegment, EngineAction, EngineResult, InputMode, InputState};
