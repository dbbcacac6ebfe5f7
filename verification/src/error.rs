use vstd::prelude::*;
use vstd::string::StringExecFns;

verus! {

/// Why a resolution pass stopped, as a mathematical value.
pub enum Fault {
    /// A text was not a well-formed document.
    Parse,
    /// A retrieval failed in transport or came back with an unsuccessful status.
    Fetch,
    /// The value under the marked key `key` is not text.
    Type { key: Seq<char> },
    /// No object of the index carries the identifier `id`.
    MissingReference { id: Seq<char> },
    /// The object `id` refers, directly or through other objects, to itself.
    Cycle { id: Seq<char> },
}

/// Why a resolution pass stopped. `Parse` and `Fetch` carry a diagnostic,
/// `Type` the offending key, the others the identifier.
#[derive(Debug, PartialEq, Eq)]
pub enum ResolveError {
    Parse(String),
    Fetch(String),
    Type(String),
    MissingReference(String),
    Cycle(String),
}

impl View for ResolveError {
    type V = Fault;

    open spec fn view(&self) -> Fault {
        match self {
            ResolveError::Parse(_) => Fault::Parse,
            ResolveError::Fetch(_) => Fault::Fetch,
            ResolveError::Type(key) => Fault::Type { key: key@ },
            ResolveError::MissingReference(id) => Fault::MissingReference { id: id@ },
            ResolveError::Cycle(id) => Fault::Cycle { id: id@ },
        }
    }
}

/// Why a manifest is not a valid bundle description, as a mathematical value.
pub enum Invalidity {
    /// The manifest is not a mapping.
    NotAnObject,
    /// The mapping lacks the section `name`.
    MissingRequiredSection { name: Seq<char> },
}

/// Why a manifest is not a valid bundle description.
#[derive(Debug, Clone, PartialEq, Eq)]
pub enum ValidationError {
    /// The manifest is not a mapping.
    NotAnObject,
    /// The mapping lacks the named section.
    MissingRequiredSection(String),
}

impl View for ValidationError {
    type V = Invalidity;

    open spec fn view(&self) -> Invalidity {
        match self {
            ValidationError::NotAnObject => Invalidity::NotAnObject,
            ValidationError::MissingRequiredSection(name) => Invalidity::MissingRequiredSection {
                name: name@,
            },
        }
    }
}

impl Clone for ResolveError {
    fn clone(&self) -> (copy: Self)
        ensures
            copy == *self,
    {
        match self {
            ResolveError::Parse(reason) => ResolveError::Parse(reason.clone()),
            ResolveError::Fetch(reason) => ResolveError::Fetch(reason.clone()),
            ResolveError::Type(key) => ResolveError::Type(key.clone()),
            ResolveError::MissingReference(id) => ResolveError::MissingReference(id.clone()),
            ResolveError::Cycle(id) => ResolveError::Cycle(id.clone()),
        }
    }
}

impl ResolveError {
    /// What the error says to a reader.
    pub open spec fn message_text(self) -> Seq<char> {
        match self {
            ResolveError::Parse(reason) => "Problem reading document: "@ + reason@,
            ResolveError::Fetch(reason) => "Problem fetching document: "@ + reason@,
            ResolveError::Type(key) => "Expected a string under "@ + key@ + "."@,
            ResolveError::MissingReference(id) => "Could not find object with ID "@ + id@ + "."@,
            ResolveError::Cycle(id) => "Object with ID "@ + id@ + " refers to itself."@,
        }
    }

    /// Writes the error out for a reader.
    pub fn message(&self) -> (text: String)
        ensures
            text@ == self.message_text(),
    {
        match self {
            ResolveError::Parse(reason) => String::from_str("Problem reading document: ").concat(
                reason.as_str(),
            ),
            ResolveError::Fetch(reason) => String::from_str("Problem fetching document: ").concat(
                reason.as_str(),
            ),
            ResolveError::Type(key) => String::from_str("Expected a string under ").concat(
                key.as_str(),
            ).concat("."),
            ResolveError::MissingReference(id) => String::from_str(
                "Could not find object with ID ",
            ).concat(id.as_str()).concat("."),
            ResolveError::Cycle(id) => String::from_str("Object with ID ").concat(
                id.as_str(),
            ).concat(" refers to itself."),
        }
    }
}

impl ValidationError {
    /// What the error says to a reader.
    pub open spec fn message_text(self) -> Seq<char> {
        match self {
            ValidationError::NotAnObject => "Expected a top-level object."@,
            ValidationError::MissingRequiredSection(name) => "Missing "@ + name@ + "."@,
        }
    }

    /// Writes the error out for a reader.
    pub fn message(&self) -> (text: String)
        ensures
            text@ == self.message_text(),
    {
        match self {
            ValidationError::NotAnObject => String::from_str("Expected a top-level object."),
            ValidationError::MissingRequiredSection(name) => String::from_str("Missing ").concat(
                name.as_str(),
            ).concat("."),
        }
    }
}

} // verus!
