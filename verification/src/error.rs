use vstd::prelude::*;
use crate::key::Key;
use crate::key::KeyPath;
use crate::key::PathM;

verus! {

/// Ghost model of a build error.
pub enum ErrM {
    InvalidKey(Seq<char>),
    InvalidPluralSelector(Seq<char>),
    UnexpectedSequence(PathM),
    UndefinedForeignKey(PathM),
    ForeignKeyCycle(PathM),
    NonExhaustivePlural(PathM),
    OverlappingPluralSelectors(PathM),
    LocaleKeyTypeMismatch(PathM),
    MissingDefaultValue(PathM),
}

/// A fatal error: the first one aborts the build.
#[derive(PartialEq, Eq, Debug)]
pub enum Error {
    /// A raw key string cannot become a valid identifier.
    InvalidKey(String),
    /// An arm name of a plural construct is neither a count, a count range,
    /// nor the catch-all `_`.
    InvalidPluralSelector(String),
    /// A sequence/array node stood where a mapping or scalar was required.
    UnexpectedSequence(KeyPath),
    /// A reference path does not resolve to any existing key.
    UndefinedForeignKey(KeyPath),
    /// Reference resolution revisited a key already being resolved.
    ForeignKeyCycle(KeyPath),
    /// A plural construct lacks a catch-all arm.
    NonExhaustivePlural(KeyPath),
    /// Two arms of one plural construct can both match the same value.
    OverlappingPluralSelectors(KeyPath),
    /// Same key or argument used with conflicting shapes across locales.
    LocaleKeyTypeMismatch(KeyPath),
    /// The default locale lacks a usable value for a key it defines.
    MissingDefaultValue(KeyPath),
}

impl View for Error {
    type V = ErrM;

    open spec fn view(&self) -> ErrM {
        match self {
            Error::InvalidKey(s) => ErrM::InvalidKey(s@),
            Error::InvalidPluralSelector(s) => ErrM::InvalidPluralSelector(s@),
            Error::UnexpectedSequence(p) => ErrM::UnexpectedSequence(p@),
            Error::UndefinedForeignKey(p) => ErrM::UndefinedForeignKey(p@),
            Error::ForeignKeyCycle(p) => ErrM::ForeignKeyCycle(p@),
            Error::NonExhaustivePlural(p) => ErrM::NonExhaustivePlural(p@),
            Error::OverlappingPluralSelectors(p) => ErrM::OverlappingPluralSelectors(p@),
            Error::LocaleKeyTypeMismatch(p) => ErrM::LocaleKeyTypeMismatch(p@),
            Error::MissingDefaultValue(p) => ErrM::MissingDefaultValue(p@),
        }
    }
}

/// Ghost model of a non-fatal discrepancy.
pub enum WarnM {
    /// A key the default locale defines is absent from this locale.
    MissingKey { locale: Seq<char>, path: PathM },
    /// A key this locale defines is absent from the default locale.
    SurplusKey { locale: Seq<char>, path: PathM },
}

/// A non-fatal discrepancy, recorded while merging and surfaced to the caller.
#[derive(PartialEq, Eq)]
pub enum Warning {
    /// The named locale lacks a key the default locale defines; generation
    /// falls back to the default locale's value there.
    MissingKey { locale: Key, path: KeyPath },
    /// The named locale defines a key the default locale does not; the key is
    /// discarded.
    SurplusKey { locale: Key, path: KeyPath },
}

impl View for Warning {
    type V = WarnM;

    open spec fn view(&self) -> WarnM {
        match self {
            Warning::MissingKey { locale, path } => WarnM::MissingKey {
                locale: locale.name@,
                path: path@,
            },
            Warning::SurplusKey { locale, path } => WarnM::SurplusKey {
                locale: locale.name@,
                path: path@,
            },
        }
    }
}

} // verus!
