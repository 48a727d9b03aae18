//! Error values shared by the resolver and the assembler.

use vstd::prelude::*;

verus! {

/// The structural failure categories of the translation engine.
#[derive(Clone, Copy, Debug, PartialEq, Eq, Structural)]
pub enum ErrorKind {
    /// A floating-point or byte-sequence type was used as a map key.
    UnsupportedMapKey,
    /// A container wrapped in a container, or an optional in an optional.
    DoubleWrapped,
    /// A closing delimiter did not match the most recently opened one.
    MismatchedDelimiters,
    /// A map wrapper whose argument list did not hold exactly two arguments.
    WrongArity,
    /// A type expression matching no rule and no declared type name.
    UnknownType,
    /// An enumeration variant carrying a parenthesized payload.
    ValueCarryingVariant,
    /// A struct that exhausted the field-number space.
    FieldNumberOverflow,
}

/// A structured translation failure: a category plus a human-readable text.
#[derive(Debug)]
pub struct R2Proto3Error {
    kind: ErrorKind,
    description: String,
}

impl R2Proto3Error {
    pub closed spec fn spec_kind(&self) -> ErrorKind {
        self.kind
    }

    pub closed spec fn spec_description(&self) -> Seq<char> {
        self.description@
    }

    pub fn new(kind: ErrorKind, description: String) -> (r: R2Proto3Error)
        ensures
            r.spec_kind() == kind,
            r.spec_description() == description@,
    {
        R2Proto3Error { kind, description }
    }

    pub fn kind(&self) -> (k: ErrorKind)
        ensures
            k == self.spec_kind(),
    {
        self.kind
    }

    pub fn description(&self) -> (d: &str)
        ensures
            d@ == self.spec_description(),
    {
        self.description.as_str()
    }
}

/// Two errors are equal exactly when their descriptions are: the
/// category does not take part in equality.
impl PartialEq for R2Proto3Error {
    fn eq(&self, other: &Self) -> (r: bool) {
        self.description == other.description
    }
}

impl vstd::std_specs::cmp::PartialEqSpecImpl for R2Proto3Error {
    open spec fn obeys_eq_spec() -> bool {
        true
    }

    open spec fn eq_spec(&self, other: &Self) -> bool {
        self.spec_description() == other.spec_description()
    }
}

/// A minimal marked declaration, kept as an example of an annotated type.
pub struct TestStruct(pub i32);

} // verus!
