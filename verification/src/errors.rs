//! The closed set of failures the store reports.

use vstd::prelude::*;

verus! {

/// Every fallible operation of the store returns one of these, grouped by
/// cause: resource limits, misuse/validation, handle-state misuse, and
/// persistence/format failures. Lookup functions whose "absence" outcome is
/// expected (`get_trail_id`, `get_uuid`, `get_item`, `get_item_value`,
/// `get_field_name`) return `Option` instead.
#[derive(Debug, Clone, Copy, PartialEq, Eq, Structural)]
pub enum Error {
    Nomem,
    PathTooLong,
    UnknownField,
    UnknownUuid,
    InvalidTrailId,
    HandleIsNull,
    HandleAlreadyOpened,
    UnknownOption,
    InvalidOptionValue,
    InvalidUuid,
    IoOpen,
    IoClose,
    IoWrite,
    IoRead,
    IoTruncate,
    IoPackage,
    InvalidInfoFile,
    InvalidVersionFile,
    IncompatibleVersion,
    InvalidFieldsFile,
    InvalidUuidsFile,
    InvalidCodebookFile,
    InvalidTrailsFile,
    InvalidLexiconFile,
    InvalidPackage,
    TooManyFields,
    DuplicateFields,
    InvalidFieldname,
    TooManyTrails,
    ValueTooLong,
    AppendFieldsMismatch,
    LexiconTooLarge,
    TimestampTooLarge,
    TrailTooLong,
    OnlyDiffFilter,
}

/// The name of an error variant, as a character sequence.
pub open spec fn spec_error_name(e: Error) -> Seq<char> {
    match e {
        Error::Nomem => "Nomem"@,
        Error::PathTooLong => "PathTooLong"@,
        Error::UnknownField => "UnknownField"@,
        Error::UnknownUuid => "UnknownUuid"@,
        Error::InvalidTrailId => "InvalidTrailId"@,
        Error::HandleIsNull => "HandleIsNull"@,
        Error::HandleAlreadyOpened => "HandleAlreadyOpened"@,
        Error::UnknownOption => "UnknownOption"@,
        Error::InvalidOptionValue => "InvalidOptionValue"@,
        Error::InvalidUuid => "InvalidUuid"@,
        Error::IoOpen => "IoOpen"@,
        Error::IoClose => "IoClose"@,
        Error::IoWrite => "IoWrite"@,
        Error::IoRead => "IoRead"@,
        Error::IoTruncate => "IoTruncate"@,
        Error::IoPackage => "IoPackage"@,
        Error::InvalidInfoFile => "InvalidInfoFile"@,
        Error::InvalidVersionFile => "InvalidVersionFile"@,
        Error::IncompatibleVersion => "IncompatibleVersion"@,
        Error::InvalidFieldsFile => "InvalidFieldsFile"@,
        Error::InvalidUuidsFile => "InvalidUuidsFile"@,
        Error::InvalidCodebookFile => "InvalidCodebookFile"@,
        Error::InvalidTrailsFile => "InvalidTrailsFile"@,
        Error::InvalidLexiconFile => "InvalidLexiconFile"@,
        Error::InvalidPackage => "InvalidPackage"@,
        Error::TooManyFields => "TooManyFields"@,
        Error::DuplicateFields => "DuplicateFields"@,
        Error::InvalidFieldname => "InvalidFieldname"@,
        Error::TooManyTrails => "TooManyTrails"@,
        Error::ValueTooLong => "ValueTooLong"@,
        Error::AppendFieldsMismatch => "AppendFieldsMismatch"@,
        Error::LexiconTooLarge => "LexiconTooLarge"@,
        Error::TimestampTooLarge => "TimestampTooLarge"@,
        Error::TrailTooLong => "TrailTooLong"@,
        Error::OnlyDiffFilter => "OnlyDiffFilter"@,
    }
}

impl Error {
    /// A human-readable name for the error, for diagnostics.
    pub fn name(&self) -> (r: &'static str)
        ensures
            r@ == spec_error_name(*self),
    {
        match *self {
            Error::Nomem => "Nomem",
            Error::PathTooLong => "PathTooLong",
            Error::UnknownField => "UnknownField",
            Error::UnknownUuid => "UnknownUuid",
            Error::InvalidTrailId => "InvalidTrailId",
            Error::HandleIsNull => "HandleIsNull",
            Error::HandleAlreadyOpened => "HandleAlreadyOpened",
            Error::UnknownOption => "UnknownOption",
            Error::InvalidOptionValue => "InvalidOptionValue",
            Error::InvalidUuid => "InvalidUuid",
            Error::IoOpen => "IoOpen",
            Error::IoClose => "IoClose",
            Error::IoWrite => "IoWrite",
            Error::IoRead => "IoRead",
            Error::IoTruncate => "IoTruncate",
            Error::IoPackage => "IoPackage",
            Error::InvalidInfoFile => "InvalidInfoFile",
            Error::InvalidVersionFile => "InvalidVersionFile",
            Error::IncompatibleVersion => "IncompatibleVersion",
            Error::InvalidFieldsFile => "InvalidFieldsFile",
            Error::InvalidUuidsFile => "InvalidUuidsFile",
            Error::InvalidCodebookFile => "InvalidCodebookFile",
            Error::InvalidTrailsFile => "InvalidTrailsFile",
            Error::InvalidLexiconFile => "InvalidLexiconFile",
            Error::InvalidPackage => "InvalidPackage",
            Error::TooManyFields => "TooManyFields",
            Error::DuplicateFields => "DuplicateFields",
            Error::InvalidFieldname => "InvalidFieldname",
            Error::TooManyTrails => "TooManyTrails",
            Error::ValueTooLong => "ValueTooLong",
            Error::AppendFieldsMismatch => "AppendFieldsMismatch",
            Error::LexiconTooLarge => "LexiconTooLarge",
            Error::TimestampTooLarge => "TimestampTooLarge",
            Error::TrailTooLong => "TrailTooLong",
            Error::OnlyDiffFilter => "OnlyDiffFilter",
        }
    }
}

} // verus!
