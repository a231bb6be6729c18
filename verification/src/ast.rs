//! The library's own model of a parsed schema-description document: plain
//! values holding exactly what the lowering pass reads. The surrounding
//! tooling converts an external parser's AST into this form before calling
//! into the library.

use vstd::prelude::*;

verus! {

/// A structured, JSON-like constant value, as it appears in directive
/// arguments and in argument defaults.
pub enum Value {
    Null,
    Bool(bool),
    Num(i64),
    Str(String),
    List(Vec<Value>),
    Object(Vec<(String, Value)>),
}

/// A named, argument-bearing annotation attached to a schema element.
pub struct Directive {
    pub name: String,
    pub args: Vec<(String, Value)>,
}

/// A type reference as written in a field or argument position: a base shape
/// and whether the whole reference may be null.
pub struct TypeRef {
    pub base: BaseTypeRef,
    pub nullable: bool,
}

/// The base shape of a type reference: a named type, or a list of some
/// element type.
pub enum BaseTypeRef {
    Named(String),
    List(Box<TypeRef>),
}

/// An argument definition, or a field of an input object.
pub struct InputValueDef {
    pub name: String,
    pub description: Option<String>,
    pub ty: TypeRef,
    pub directives: Vec<Directive>,
    pub default_value: Option<Value>,
}

/// A field of an object or interface type.
pub struct FieldDef {
    pub name: String,
    pub description: Option<String>,
    pub ty: TypeRef,
    pub arguments: Vec<InputValueDef>,
    pub directives: Vec<Directive>,
}

/// The body of an object or interface type definition.
pub struct ObjectTypeDef {
    pub fields: Vec<FieldDef>,
    pub implements: Vec<String>,
}

/// The kind of a type definition, with the kind-specific payload.
pub enum TypeDefKind {
    Object(ObjectTypeDef),
    Interface(ObjectTypeDef),
    Enum(Vec<String>),
    InputObject(Vec<InputValueDef>),
    Union(Vec<String>),
    Scalar,
}

/// One top-level type definition.
pub struct TypeDef {
    pub name: String,
    pub description: Option<String>,
    pub kind: TypeDefKind,
}

/// The schema definition: root operation type names and schema directives.
pub struct SchemaDef {
    pub directives: Vec<Directive>,
    pub query: Option<String>,
    pub mutation: Option<String>,
    pub subscription: Option<String>,
}

/// One top-level definition of the document.
pub enum Definition {
    Schema(SchemaDef),
    Type(TypeDef),
}

/// A whole parsed schema-description document.
pub struct Document {
    pub definitions: Vec<Definition>,
}

} // verus!
