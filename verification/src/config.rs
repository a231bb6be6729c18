//! The configuration model (the IR): the normalized, directive-resolved value
//! the lowering pass produces. Every entity here is created once, during one
//! lowering pass, and never mutated afterwards.

use vstd::prelude::*;
use crate::ast::Value;
use crate::namemap::NameMap;
use crate::namemap::NameSet;

verus! {

/// Process-wide serving options, from the schema's `server` directive.
pub struct Server {
    pub port: Option<u16>,
    pub hostname: Option<String>,
}

impl Default for Server {
    /// The options when the directive is absent.
    fn default() -> (r: Self)
        ensures
            r == (Server { port: None, hostname: None }),
    {
        Server { port: None, hostname: None }
    }
}

/// Outbound-call options, from the schema's `upstream` directive.
pub struct Upstream {
    pub base_url: Option<String>,
    pub timeout: Option<u64>,
}

impl Default for Upstream {
    /// The options when the directive is absent.
    fn default() -> (r: Self)
        ensures
            r == (Upstream { base_url: None, timeout: None }),
    {
        Upstream { base_url: None, timeout: None }
    }
}

/// An HTTP fetch specification, from a field's `http` directive.
pub struct Http {
    pub path: String,
    pub method: Option<String>,
    pub base_url: Option<String>,
    pub body: Option<String>,
}

/// A rename-or-omit marker, from a field's or argument's `modify` directive.
pub struct ModifyField {
    pub name: Option<String>,
    pub omit: Option<bool>,
}

/// An inlining path, from a field's `inline` directive.
pub struct InlineType {
    pub path: Vec<String>,
}

/// A marker for an unchecked operation, from a field's `unsafe` directive.
pub struct Unsafe {}

/// A batching specification, from a field's `groupBy` directive.
pub struct GroupBy {
    pub path: Vec<String>,
}

/// A constant result, from a field's `const` directive.
pub struct ConstField {
    pub data: Value,
}

/// One argument of a field.
pub struct Arg {
    pub type_of: String,
    pub list: bool,
    pub required: bool,
    pub doc: Option<String>,
    pub modify: Option<ModifyField>,
    pub default_value: Option<Value>,
}

/// One field of an object, interface, or input-object type.
pub struct Field {
    pub type_of: String,
    pub list: bool,
    pub required: bool,
    pub list_type_required: bool,
    pub args: NameMap<Arg>,
    pub doc: Option<String>,
    pub modify: Option<ModifyField>,
    pub inline: Option<InlineType>,
    pub http: Option<Http>,
    pub unsafe_operation: Option<Unsafe>,
    pub group_by: Option<GroupBy>,
    pub const_field: Option<ConstField>,
}

/// One named type of the schema. Exactly one kind is populated: an object or
/// interface has fields, an enum has variants, a scalar has the flag; union
/// types are kept in a table of their own, never here.
pub struct Type {
    pub fields: NameMap<Field>,
    pub doc: Option<String>,
    pub interface: bool,
    pub implements: NameSet,
    pub variants: Option<Vec<String>>,
    pub scalar: bool,
}

/// One named union type: its member type names in declaration order.
pub struct Union {
    pub types: Vec<String>,
    pub doc: Option<String>,
}

/// The names of the root operation types; absence means the operation is
/// unsupported.
pub struct RootSchema {
    pub query: Option<String>,
    pub mutation: Option<String>,
    pub subscription: Option<String>,
}

/// The schema IR: the root names and the two name-sorted type tables.
pub struct GraphQL {
    pub schema: RootSchema,
    pub types: NameMap<Type>,
    pub unions: NameMap<Union>,
}

/// The root IR value.
pub struct Config {
    pub server: Server,
    pub upstream: Upstream,
    pub graphql: GraphQL,
}

} // verus!
