//! The error taxonomy: faults found once while compiling a schema into
//! bindings, and the reasons a document is rejected by decode.

use vstd::prelude::*;

verus! {

/// A fault in the schema itself, found while the bindings are compiled.
#[derive(Debug, Clone, PartialEq, Eq)]
pub enum SchemaError {
    /// An `extends` entry names a type the schema does not define.
    UnknownSupertype(String),
    /// A preferred-name override's shape does not match its property's.
    KindMismatch(String),
    /// The inheritance relation has a cycle; it must be a DAG.
    CyclicInheritance(String),
    /// A property's value-type expression cannot be read.
    MalformedType(String),
}

/// Model of a schema fault.
#[verifier::ext_equal]
pub enum SchemaErrorView {
    UnknownSupertype(Seq<char>),
    KindMismatch(Seq<char>),
    CyclicInheritance(Seq<char>),
    MalformedType(Seq<char>),
}

/// Model of a schema fault.
pub open spec fn schema_error_view(e: SchemaError) -> SchemaErrorView {
    match e {
        SchemaError::UnknownSupertype(s) => SchemaErrorView::UnknownSupertype(s@),
        SchemaError::KindMismatch(s) => SchemaErrorView::KindMismatch(s@),
        SchemaError::CyclicInheritance(s) => SchemaErrorView::CyclicInheritance(s@),
        SchemaError::MalformedType(s) => SchemaErrorView::MalformedType(s@),
    }
}

impl View for SchemaError {
    type V = SchemaErrorView;

    open spec fn view(&self) -> SchemaErrorView {
        schema_error_view(*self)
    }
}

/// Why decode rejected a document.  Every rejection is terminal: no
/// partial value is ever handed back beside one of these.
#[derive(Debug, PartialEq)]
pub enum DecodeError {
    /// A required property never appeared.
    MissingRequiredField(String),
    /// A required or functional property's key appeared twice.
    DuplicateField(String),
    /// Neither branch of an either-of or reference resolution matched;
    /// both underlying failures are carried.
    TypeMismatch(Box<DecodeError>, Box<DecodeError>),
    /// A discriminant matched no known subtype and the base type refused
    /// the object too; the expected set is carried.
    UnknownDiscriminant(String, Vec<String>),
    /// A date-time or duration (or identifier) violated its grammar.
    MalformedScalar(String),
    /// The document's shape is not the one the binding called for.
    UnexpectedShape(String),
}

/// Model of a rejection.
#[verifier::ext_equal]
pub enum DecodeErrorView {
    MissingRequiredField(Seq<char>),
    DuplicateField(Seq<char>),
    TypeMismatch(Box<DecodeErrorView>, Box<DecodeErrorView>),
    UnknownDiscriminant(Seq<char>, Seq<Seq<char>>),
    MalformedScalar(Seq<char>),
    UnexpectedShape(Seq<char>),
}

/// Models of a sequence of texts, elementwise.
pub open spec fn strs_view(s: Seq<String>) -> Seq<Seq<char>> {
    Seq::new(s.len(), |i: int| s[i]@)
}

/// Model of a rejection.
pub open spec fn decode_error_view(e: DecodeError) -> DecodeErrorView
    decreases e,
{
    match e {
        DecodeError::MissingRequiredField(s) => DecodeErrorView::MissingRequiredField(s@),
        DecodeError::DuplicateField(s) => DecodeErrorView::DuplicateField(s@),
        DecodeError::TypeMismatch(a, b) => DecodeErrorView::TypeMismatch(
            Box::new(decode_error_view(*a)),
            Box::new(decode_error_view(*b)),
        ),
        DecodeError::UnknownDiscriminant(t, expected) => DecodeErrorView::UnknownDiscriminant(
            t@,
            strs_view(expected@),
        ),
        DecodeError::MalformedScalar(s) => DecodeErrorView::MalformedScalar(s@),
        DecodeError::UnexpectedShape(s) => DecodeErrorView::UnexpectedShape(s@),
    }
}

impl View for DecodeError {
    type V = DecodeErrorView;

    open spec fn view(&self) -> DecodeErrorView {
        decode_error_view(*self)
    }
}

} // verus!
