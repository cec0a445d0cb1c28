//! Why an operation was refused.
use vstd::prelude::*;

verus! {

/// A refusal. [`Error::message`] says it in words.
#[derive(Clone, Copy, Debug, PartialEq, Eq, Structural)]
pub enum Error {
    MissingMetadata,
    InvalidDepthLevel,
    OffTickPrice,
    InvalidInstrument,
    InvalidDepthRange,
    DepthBufferOverflow,
    VenueSymbols,
    FeatureContract,
    InvalidTiming,
    InvalidRisk,
    InvalidFee,
    LeveragedLimits,
    UnsupportedModelContract,
    UnsupportedModelSymbol,
    FeatureSchemaMismatch,
    NonfiniteModel,
    InvalidModelParameter,
    InvalidProvenance,
    DuplicateModels,
    InvalidFunding,
    InvalidSequence,
    ClockMovedBackwards,
    UnexpectedSymbol,
    UnknownFeed,
    ModelOverlapsDecision,
    NonfinitePrediction,
    MissingNumber,
    InvalidNumber,
    NonfiniteNumber,
    MissingInteger,
    MissingId,
    InvalidId,
    MissingLevels,
    MissingSymbol,
    UnexpectedInstrument,
    MissingEventType,
    UnknownStreamEvent,
    InvalidTrade,
    MissingMakerFlag,
    TimeOutOfRange,
    MissingSymbols,
    InstrumentUnavailable,
    InstrumentInactive,
    MissingFilters,
    MissingFilter,
    FundingNotArray,
    MissingChannel,
    InvalidTimestamp,
    MissingSequence,
    MissingEvents,
    MissingProduct,
    MissingUpdates,
    MissingTrades,
    InstrumentOffline,
    SequenceGap,
    RemoteClose,
    MalformedText,
    WriteFailed,
    CheckpointVersion,
    ResumeMismatch,
    CheckpointBeyondFiles,
    ExistingArtifacts,
    NoLabels,
    TooFewModels,
    SelectionUnfinished,
    BenchmarkTooSmall,
    FixtureTooLong,
    InvalidFeatureVector,
}

impl Error {
    /// The refusal in words.
    pub open spec fn words(self) -> Seq<char> {
        match self {
            Error::MissingMetadata => "missing metadata"@,
            Error::InvalidDepthLevel => "invalid depth level"@,
            Error::OffTickPrice => "off-tick price"@,
            Error::InvalidInstrument => "invalid instrument"@,
            Error::InvalidDepthRange => "invalid depth update range"@,
            Error::DepthBufferOverflow => "depth synchronization buffer overflow"@,
            Error::VenueSymbols => "v1 requires this venue's BTC, ETH symbols in that order"@,
            Error::FeatureContract => "v1 feature/model contract requires 100ms decisions, 1s horizon, >=5s warmup"@,
            Error::InvalidTiming => "invalid timing/capacity"@,
            Error::InvalidRisk => "risk values must be finite and positive"@,
            Error::InvalidFee => "invalid fee"@,
            Error::LeveragedLimits => "v1 uses unlevered gross limits"@,
            Error::UnsupportedModelContract => "unsupported model contract"@,
            Error::UnsupportedModelSymbol => "unsupported model symbol"@,
            Error::FeatureSchemaMismatch => "feature schema mismatch"@,
            Error::NonfiniteModel => "nonfinite/invalid model"@,
            Error::InvalidModelParameter => "invalid model parameter"@,
            Error::InvalidProvenance => "invalid provenance"@,
            Error::DuplicateModels => "duplicate models"@,
            Error::InvalidFunding => "invalid funding"@,
            Error::InvalidSequence => "invalid event schema/sequence"@,
            Error::ClockMovedBackwards => "availability clock moved backwards"@,
            Error::UnexpectedSymbol => "unexpected symbol"@,
            Error::UnknownFeed => "unknown feed"@,
            Error::ModelOverlapsDecision => "model selection/training overlaps replay decision"@,
            Error::NonfinitePrediction => "nonfinite prediction"@,
            Error::MissingNumber => "missing number"@,
            Error::InvalidNumber => "invalid number"@,
            Error::NonfiniteNumber => "nonfinite number"@,
            Error::MissingInteger => "missing integer"@,
            Error::MissingId => "missing id"@,
            Error::InvalidId => "invalid id"@,
            Error::MissingLevels => "missing levels"@,
            Error::MissingSymbol => "missing symbol"@,
            Error::UnexpectedInstrument => "unexpected non-USD-M instrument"@,
            Error::MissingEventType => "missing event type"@,
            Error::UnknownStreamEvent => "unknown stream event"@,
            Error::InvalidTrade => "invalid trade"@,
            Error::MissingMakerFlag => "missing maker flag"@,
            Error::TimeOutOfRange => "time out of range"@,
            Error::MissingSymbols => "missing symbols"@,
            Error::InstrumentUnavailable => "instrument unavailable"@,
            Error::InstrumentInactive => "instrument not active perpetual"@,
            Error::MissingFilters => "missing filters"@,
            Error::MissingFilter => "missing instrument filter"@,
            Error::FundingNotArray => "funding response not array"@,
            Error::MissingChannel => "missing channel"@,
            Error::InvalidTimestamp => "invalid timestamp"@,
            Error::MissingSequence => "missing sequence_num"@,
            Error::MissingEvents => "missing events"@,
            Error::MissingProduct => "missing product_id"@,
            Error::MissingUpdates => "missing updates"@,
            Error::MissingTrades => "missing trades"@,
            Error::InstrumentOffline => "instrument not online"@,
            Error::SequenceGap => "sequence gap"@,
            Error::RemoteClose => "remote close"@,
            Error::MalformedText => "malformed JSON"@,
            Error::WriteFailed => "event log write failed"@,
            Error::CheckpointVersion => "checkpoint version mismatch"@,
            Error::ResumeMismatch => "resume requires identical config and models"@,
            Error::CheckpointBeyondFiles => "checkpoint exceeds durable files"@,
            Error::ExistingArtifacts => "existing run artifacts; use a new log path or --resume"@,
            Error::NoLabels => "no valid labels; collect at least 7 seconds of continuous books"@,
            Error::TooFewModels => "paper requires one validated model per symbol in model_paths"@,
            Error::SelectionUnfinished => "evaluation starts before model selection finishes"@,
            Error::BenchmarkTooSmall => "benchmark requires >=1000 events and positive rate"@,
            Error::FixtureTooLong => "fixture capped at one day"@,
            Error::InvalidFeatureVector => "invalid feature vector"@,
        }
    }

    /// The refusal in words.
    pub fn message(&self) -> (r: &'static str)
        ensures
            r@ == self.words(),
    {
        match self {
            Error::MissingMetadata => "missing metadata",
            Error::InvalidDepthLevel => "invalid depth level",
            Error::OffTickPrice => "off-tick price",
            Error::InvalidInstrument => "invalid instrument",
            Error::InvalidDepthRange => "invalid depth update range",
            Error::DepthBufferOverflow => "depth synchronization buffer overflow",
            Error::VenueSymbols => "v1 requires this venue's BTC, ETH symbols in that order",
            Error::FeatureContract => "v1 feature/model contract requires 100ms decisions, 1s horizon, >=5s warmup",
            Error::InvalidTiming => "invalid timing/capacity",
            Error::InvalidRisk => "risk values must be finite and positive",
            Error::InvalidFee => "invalid fee",
            Error::LeveragedLimits => "v1 uses unlevered gross limits",
            Error::UnsupportedModelContract => "unsupported model contract",
            Error::UnsupportedModelSymbol => "unsupported model symbol",
            Error::FeatureSchemaMismatch => "feature schema mismatch",
            Error::NonfiniteModel => "nonfinite/invalid model",
            Error::InvalidModelParameter => "invalid model parameter",
            Error::InvalidProvenance => "invalid provenance",
            Error::DuplicateModels => "duplicate models",
            Error::InvalidFunding => "invalid funding",
            Error::InvalidSequence => "invalid event schema/sequence",
            Error::ClockMovedBackwards => "availability clock moved backwards",
            Error::UnexpectedSymbol => "unexpected symbol",
            Error::UnknownFeed => "unknown feed",
            Error::ModelOverlapsDecision => "model selection/training overlaps replay decision",
            Error::NonfinitePrediction => "nonfinite prediction",
            Error::MissingNumber => "missing number",
            Error::InvalidNumber => "invalid number",
            Error::NonfiniteNumber => "nonfinite number",
            Error::MissingInteger => "missing integer",
            Error::MissingId => "missing id",
            Error::InvalidId => "invalid id",
            Error::MissingLevels => "missing levels",
            Error::MissingSymbol => "missing symbol",
            Error::UnexpectedInstrument => "unexpected non-USD-M instrument",
            Error::MissingEventType => "missing event type",
            Error::UnknownStreamEvent => "unknown stream event",
            Error::InvalidTrade => "invalid trade",
            Error::MissingMakerFlag => "missing maker flag",
            Error::TimeOutOfRange => "time out of range",
            Error::MissingSymbols => "missing symbols",
            Error::InstrumentUnavailable => "instrument unavailable",
            Error::InstrumentInactive => "instrument not active perpetual",
            Error::MissingFilters => "missing filters",
            Error::MissingFilter => "missing instrument filter",
            Error::FundingNotArray => "funding response not array",
            Error::MissingChannel => "missing channel",
            Error::InvalidTimestamp => "invalid timestamp",
            Error::MissingSequence => "missing sequence_num",
            Error::MissingEvents => "missing events",
            Error::MissingProduct => "missing product_id",
            Error::MissingUpdates => "missing updates",
            Error::MissingTrades => "missing trades",
            Error::InstrumentOffline => "instrument not online",
            Error::SequenceGap => "sequence gap",
            Error::RemoteClose => "remote close",
            Error::MalformedText => "malformed JSON",
            Error::WriteFailed => "event log write failed",
            Error::CheckpointVersion => "checkpoint version mismatch",
            Error::ResumeMismatch => "resume requires identical config and models",
            Error::CheckpointBeyondFiles => "checkpoint exceeds durable files",
            Error::ExistingArtifacts => "existing run artifacts; use a new log path or --resume",
            Error::NoLabels => "no valid labels; collect at least 7 seconds of continuous books",
            Error::TooFewModels => "paper requires one validated model per symbol in model_paths",
            Error::SelectionUnfinished => "evaluation starts before model selection finishes",
            Error::BenchmarkTooSmall => "benchmark requires >=1000 events and positive rate",
            Error::FixtureTooLong => "fixture capped at one day",
            Error::InvalidFeatureVector => "invalid feature vector",
        }
    }
}

} // verus!
