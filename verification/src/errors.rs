//! The error taxonomy of the pipeline.
//!
//! Construction problems, transformation problems and persistence problems
//! are three separate types, and within each type the cases stay
//! distinguishable: every case has its own fixed message.

use vstd::prelude::*;

verus! {

/// Invalid construction parameters, raised before any transformation runs.
#[derive(Clone, Copy, Debug, PartialEq, Eq, Structural)]
pub enum ConfigurationError {
    /// The Metaspace replacement marker was not exactly one character.
    ReplacementNotOneChar,
    /// A recognized configuration key carried a value of the wrong type.
    WrongValueType,
}

/// Failure while running `normalize` or `decode`.
#[derive(Clone, Copy, Debug, PartialEq, Eq, Structural)]
pub enum TransformError {
    /// The foreign callback reported a failure of its own.
    ForeignCallFailed,
    /// The foreign callback returned something that is not a string.
    ForeignNotString,
}

/// Failure while persisting or restoring a strategy.
#[derive(Clone, Copy, Debug, PartialEq, Eq, Structural)]
pub enum SerializationError {
    /// The held strategy is a foreign bridge, which cannot be serialized.
    NotSerializable,
    /// The persisted form names a tag that no deserializer is registered for.
    UnknownTag,
    /// The payload after the tag does not parse, or leaves bytes over.
    MalformedPayload,
    /// The persisted form names the foreign-bridge tag, which has no
    /// deserializer at all.
    NotDeserializable,
}

impl ConfigurationError {
    /// The fixed message of this case.
    pub fn message(&self) -> (r: &'static str)
        ensures
            *self is ReplacementNotOneChar ==> r@ == "replacement must be a character"@,
            *self is WrongValueType ==> r@ == "wrong value type for a known option"@,
    {
        match self {
            ConfigurationError::ReplacementNotOneChar => "replacement must be a character",
            ConfigurationError::WrongValueType => "wrong value type for a known option",
        }
    }
}

impl TransformError {
    /// The fixed message of this case.
    pub fn message(&self) -> (r: &'static str)
        ensures
            *self is ForeignCallFailed ==> r@ == "Error while calling `decode`"@,
            *self is ForeignNotString ==> r@ == "`decode` is expected to return a str"@,
    {
        match self {
            TransformError::ForeignCallFailed => "Error while calling `decode`",
            TransformError::ForeignNotString => "`decode` is expected to return a str",
        }
    }
}

impl SerializationError {
    /// The fixed message of this case.
    pub fn message(&self) -> (r: &'static str)
        ensures
            *self is NotSerializable ==> r@ == "Custom PyDecoder cannot be serialized"@,
            *self is UnknownTag ==> r@ == "unrecognized tag in persisted form"@,
            *self is MalformedPayload ==> r@ == "malformed payload in persisted form"@,
            *self is NotDeserializable ==> r@ == "PyDecoder cannot be deserialized"@,
    {
        match self {
            SerializationError::NotSerializable => "Custom PyDecoder cannot be serialized",
            SerializationError::UnknownTag => "unrecognized tag in persisted form",
            SerializationError::MalformedPayload => "malformed payload in persisted form",
            SerializationError::NotDeserializable => "PyDecoder cannot be deserialized",
        }
    }
}

} // verus!
