use crate::document::{has_key, Document, Json};
use crate::error::{Invalidity, ValidationError};
use vstd::prelude::*;

verus! {

/// Key of the section that describes the bundle.
pub const SPECIFICATION_KEY: &'static str = "specification";

/// Key of the section that holds the bundle's objects, unless a caller names
/// another.
pub const OBJECTS_KEY: &'static str = "objects";

/// What validation finds: the manifest must be a mapping, must have the
/// `specification` section, and must have the section named `objects_key`.
/// The first of these that fails is reported.
pub open spec fn validation(doc: Json, objects_key: Seq<char>) -> Result<(), Invalidity> {
    match doc {
        Json::Mapping(entries) => if !has_key(entries, SPECIFICATION_KEY@) {
            Err(Invalidity::MissingRequiredSection { name: SPECIFICATION_KEY@ })
        } else if !has_key(entries, objects_key) {
            Err(Invalidity::MissingRequiredSection { name: objects_key })
        } else {
            Ok(())
        },
        _ => Err(Invalidity::NotAnObject),
    }
}

/// The value of a verdict.
pub open spec fn verdict_view(verdict: Result<(), ValidationError>) -> Result<(), Invalidity> {
    match verdict {
        Ok(()) => Ok(()),
        Err(error) => Err(error@),
    }
}

/// Checks that `doc` has the sections of a manifest, the objects under
/// `objects_key`.
pub fn validate_with(doc: &Document, objects_key: &str) -> (verdict: Result<(), ValidationError>)
    ensures
        verdict_view(verdict) == validation(doc@, objects_key@),
{
    match doc {
        Document::Mapping(_) => {
            if doc.get(SPECIFICATION_KEY).is_none() {
                Err(ValidationError::MissingRequiredSection(SPECIFICATION_KEY.to_owned()))
            } else if doc.get(objects_key).is_none() {
                Err(ValidationError::MissingRequiredSection(objects_key.to_owned()))
            } else {
                Ok(())
            }
        },
        _ => Err(ValidationError::NotAnObject),
    }
}

/// Checks that `doc` has the sections of a manifest, the objects under
/// `objects`.
pub fn validate(doc: &Document) -> (verdict: Result<(), ValidationError>)
    ensures
        verdict_view(verdict) == validation(doc@, OBJECTS_KEY@),
{
    validate_with(doc, OBJECTS_KEY)
}

} // verus!
