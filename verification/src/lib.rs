//! Morphological analysis and generation for Polish in the manner of
//! Morfeusz: dictionaries in text or binary form, an engine that segments
//! text and looks words up, and the classic front end over it.
pub mod binary;
pub mod config;
pub mod dictionary;
pub mod engine;
pub mod error;
pub mod hints;
pub mod id_resolver;
pub mod morfeusz;
pub mod ordered;
pub mod ports;
pub mod repository;
pub mod text;
pub mod tsv;
pub mod types;

pub use binary::analyzer::BinaryAnalyzerLexicon;
pub use binary::data::{BinaryDictionaryData, FsaImplementation};
pub use binary::fsa::{BinaryFsa, RawFsaMatch, RawFsaPrefixMatch, SimpleFsa, VLength1Fsa, VLength2Fsa};
pub use binary::generator::BinaryGeneratorLexicon;
pub use binary::interps::{
    decode_analyzer_interpretations, decode_analyzer_interps_groups,
    decode_generator_interpretations, decode_generator_interps_groups, read_raw_interps_groups,
    EncodedAnalyzerInterpretation, EncodedAnalyzerInterpsGroup, EncodedForm,
    EncodedGeneratorInterpretation, EncodedGeneratorInterpsGroup, RawInterpsGroup,
};
pub use binary::lexicon::BinaryLexicon;
pub use binary::segmentation::{
    SegmentationFsaVariant, SegmentationMetadata, SegmentationRulesFsa, SegmentationState,
};
pub use config::{Config, NumberingScope, SegmentationPreset};
pub use dictionary::{Dictionary, DictionaryEntry};
pub use engine::{AnyLexicon, Engine, EngineBuilder, Session};
pub use error::{Error, Result};
pub use id_resolver::{IdResolver, LabelSet};
pub use morfeusz::{Morfeusz, ResultsIterator};
pub use ports::Lexicon;
pub use repository::{BinaryDictionaryRepository, NamedDictionaryPaths};
pub use tsv::TsvLexiconLoader;
pub use types::{
    CaseHandling, Charset, MorfeuszUsage, MorphInterpretation, TokenNumbering, WhitespaceHandling,
    ANALYSE_ONLY, APPEND_WHITESPACES, BOTH_ANALYSE_AND_GENERATE, CONDITIONALLY_CASE_SENSITIVE,
    CONTINUOUS_NUMBERING, CP1250, CP852, GENERATE_ONLY, IGNORE_CASE, ISO8859_2, KEEP_WHITESPACES,
    SEPARATE_NUMBERING, SKIP_WHITESPACES, STRICTLY_CASE_SENSITIVE, UTF8,
};
