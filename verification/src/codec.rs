//! Directive codecs: how each IR fragment type decodes itself from a single
//! named directive's argument list. Lookup by directive name and
//! last-occurrence-wins selection live with the lowering pass; each decoder
//! here sees exactly the one directive it is for, and never another one.

use vstd::prelude::*;
use crate::ast::Directive;
use crate::ast::Value;
use crate::config::ConstField;
use crate::config::GroupBy;
use crate::config::Http;
use crate::config::InlineType;
use crate::config::ModifyField;
use crate::config::Server;
use crate::config::Unsafe;
use crate::config::Upstream;
use crate::text::str_eq;
use crate::valid::fail;
use crate::valid::join_err;
use crate::valid::Valid;
use crate::valid::ValidationError;

verus! {

/// The value of the last argument with the given name, if any.
pub open spec fn last_arg(args: Seq<(String, Value)>, name: Seq<char>) -> Option<Value>
    decreases args.len(),
{
    if args.len() == 0 {
        None
    } else if args.last().0@ == name {
        Some(args.last().1)
    } else {
        last_arg(args.drop_last(), name)
    }
}

/// The value behind an optional reference.
pub open spec fn deref_arg(o: Option<&Value>) -> Option<Value> {
    match o {
        Some(v) => Some(*v),
        None => None,
    }
}

/// An optional argument that, when present, must be a string.
pub open spec fn str_shaped(o: Option<Value>) -> bool {
    match o {
        None => true,
        Some(Value::Str(_)) => true,
        Some(_) => false,
    }
}

/// The string an optional argument holds, if any.
pub open spec fn str_of(o: Option<Value>) -> Option<String> {
    match o {
        Some(Value::Str(s)) => Some(s),
        _ => None,
    }
}

/// A required argument that must be a string.
pub open spec fn req_str_shaped(o: Option<Value>) -> bool {
    match o {
        Some(Value::Str(_)) => true,
        _ => false,
    }
}

/// The string a required argument holds.
pub open spec fn req_str_of(o: Option<Value>) -> String {
    match o {
        Some(Value::Str(s)) => s,
        _ => vstd::pervasive::arbitrary(),
    }
}

/// An optional argument that, when present, must be a boolean.
pub open spec fn bool_shaped(o: Option<Value>) -> bool {
    match o {
        None => true,
        Some(Value::Bool(_)) => true,
        Some(_) => false,
    }
}

/// The boolean an optional argument holds, if any.
pub open spec fn bool_of(o: Option<Value>) -> Option<bool> {
    match o {
        Some(Value::Bool(b)) => Some(b),
        _ => None,
    }
}

/// An optional argument that, when present, must be a port number.
pub open spec fn u16_shaped(o: Option<Value>) -> bool {
    match o {
        None => true,
        Some(Value::Num(n)) => 0 <= n <= u16::MAX,
        Some(_) => false,
    }
}

/// The port number an optional argument holds, if any.
pub open spec fn u16_of(o: Option<Value>) -> Option<u16> {
    match o {
        Some(Value::Num(n)) => Some(n as u16),
        _ => None,
    }
}

/// An optional argument that, when present, must be a non-negative integer.
pub open spec fn u64_shaped(o: Option<Value>) -> bool {
    match o {
        None => true,
        Some(Value::Num(n)) => n >= 0,
        Some(_) => false,
    }
}

/// The non-negative integer an optional argument holds, if any.
pub open spec fn u64_of(o: Option<Value>) -> Option<u64> {
    match o {
        Some(Value::Num(n)) => Some(n as u64),
        _ => None,
    }
}

/// Every element of a list value is a string.
pub open spec fn all_strs(xs: Seq<Value>) -> bool {
    forall|i: int| 0 <= i < xs.len() ==> xs[i] is Str
}

/// The strings of a list value.
pub open spec fn str_values(xs: Seq<Value>) -> Seq<String> {
    xs.map_values(
        |v: Value|
            match v {
                Value::Str(s) => s,
                _ => vstd::pervasive::arbitrary(),
            },
    )
}

/// Finds the last argument with the given name.
fn get_arg<'a>(args: &'a Vec<(String, Value)>, name: &str) -> (r: Option<&'a Value>)
    ensures
        deref_arg(r) == last_arg(args@, name@),
{
    let mut i: usize = args.len();
    proof {
        assert(args@.take(i as int) =~= args@);
    }
    while i > 0
        invariant
            i <= args@.len(),
            last_arg(args@, name@) == last_arg(args@.take(i as int), name@),
        decreases i,
    {
        proof {
            assert(args@.take(i as int).drop_last() =~= args@.take(i as int - 1));
            assert(args@.take(i as int).last() == args@[i as int - 1]);
        }
        if str_eq(args[i - 1].0.as_str(), name) {
            return Some(&args[i - 1].1);
        }
        i -= 1;
    }
    proof {
        assert(args@.take(0).len() == 0);
    }
    None
}

/// Reads an optional string argument.
fn opt_str_field(o: Option<&Value>) -> (r: Result<Option<String>, ()>)
    ensures
        r is Ok <==> str_shaped(deref_arg(o)),
        r is Ok ==> r->Ok_0 == str_of(deref_arg(o)),
{
    match o {
        None => Ok(None),
        Some(Value::Str(s)) => Ok(Some(s.clone())),
        Some(_) => Err(()),
    }
}

/// Reads a required string argument.
fn req_str_field(o: Option<&Value>) -> (r: Result<String, ()>)
    ensures
        r is Ok <==> req_str_shaped(deref_arg(o)),
        r is Ok ==> r->Ok_0 == req_str_of(deref_arg(o)),
{
    match o {
        Some(Value::Str(s)) => Ok(s.clone()),
        _ => Err(()),
    }
}

/// Reads an optional boolean argument.
fn opt_bool_field(o: Option<&Value>) -> (r: Result<Option<bool>, ()>)
    ensures
        r is Ok <==> bool_shaped(deref_arg(o)),
        r is Ok ==> r->Ok_0 == bool_of(deref_arg(o)),
{
    match o {
        None => Ok(None),
        Some(Value::Bool(b)) => Ok(Some(*b)),
        Some(_) => Err(()),
    }
}

/// Reads an optional port-number argument.
fn opt_u16_field(o: Option<&Value>) -> (r: Result<Option<u16>, ()>)
    ensures
        r is Ok <==> u16_shaped(deref_arg(o)),
        r is Ok ==> r->Ok_0 == u16_of(deref_arg(o)),
{
    match o {
        None => Ok(None),
        Some(Value::Num(n)) => {
            if 0 <= *n && *n <= u16::MAX as i64 {
                Ok(Some(*n as u16))
            } else {
                Err(())
            }
        },
        Some(_) => Err(()),
    }
}

/// Reads an optional non-negative integer argument.
fn opt_u64_field(o: Option<&Value>) -> (r: Result<Option<u64>, ()>)
    ensures
        r is Ok <==> u64_shaped(deref_arg(o)),
        r is Ok ==> r->Ok_0 == u64_of(deref_arg(o)),
{
    match o {
        None => Ok(None),
        Some(Value::Num(n)) => {
            if *n >= 0 {
                Ok(Some(*n as u64))
            } else {
                Err(())
            }
        },
        Some(_) => Err(()),
    }
}

/// Copies a list of strings out of a list value.
fn str_list(xs: &Vec<Value>) -> (r: Result<Vec<String>, ()>)
    ensures
        r is Ok <==> all_strs(xs@),
        r is Ok ==> r->Ok_0@ == str_values(xs@),
{
    let mut out: Vec<String> = Vec::new();
    let mut i: usize = 0;
    while i < xs.len()
        invariant
            i <= xs@.len(),
            forall|j: int| 0 <= j < i ==> (#[trigger] xs@[j]) is Str,
            out@.len() == i,
            forall|j: int| 0 <= j < i ==> out@[j] == str_values(xs@)[j],
        decreases xs@.len() - i,
    {
        match &xs[i] {
            Value::Str(s) => {
                out.push(s.clone());
            },
            _ => {
                return Err(());
            },
        }
        i += 1;
    }
    proof {
        assert(out@ =~= str_values(xs@));
    }
    Ok(out)
}

/// Decoding `@server(...)`: process-wide serving options.
pub open spec fn server_ok(d: Directive) -> bool {
    &&& u16_shaped(last_arg(d.args@, "port"@))
    &&& str_shaped(last_arg(d.args@, "hostname"@))
}

/// The serving options `@server(...)` decodes to.
pub open spec fn server_of(d: Directive) -> Server {
    Server {
        port: u16_of(last_arg(d.args@, "port"@)),
        hostname: str_of(last_arg(d.args@, "hostname"@)),
    }
}

/// Decodes a `server` directive.
pub fn decode_server(d: &Directive) -> (r: Valid<Server>)
    ensures
        r is Ok <==> server_ok(*d),
        r is Ok ==> r->Ok_0 == server_of(*d),
        r is Err ==> r->Err_0.wf(),
{
    let mut errs: Option<ValidationError> = None;
    let port = match opt_u16_field(get_arg(&d.args, "port")) {
        Ok(p) => p,
        Err(_) => {
            errs = join_err(errs, fail("the port argument must be a port number"));
            None
        },
    };
    let hostname = match opt_str_field(get_arg(&d.args, "hostname")) {
        Ok(h) => h,
        Err(_) => {
            errs = join_err(errs, fail("the hostname argument must be a string"));
            None
        },
    };
    match errs {
        None => Ok(Server { port, hostname }),
        Some(e) => Err(e),
    }
}

/// Decoding `@upstream(...)`: outbound-call options.
pub open spec fn upstream_ok(d: Directive) -> bool {
    &&& str_shaped(last_arg(d.args@, "baseURL"@))
    &&& u64_shaped(last_arg(d.args@, "timeout"@))
}

/// The outbound-call options `@upstream(...)` decodes to.
pub open spec fn upstream_of(d: Directive) -> Upstream {
    Upstream {
        base_url: str_of(last_arg(d.args@, "baseURL"@)),
        timeout: u64_of(last_arg(d.args@, "timeout"@)),
    }
}

/// Decodes an `upstream` directive.
pub fn decode_upstream(d: &Directive) -> (r: Valid<Upstream>)
    ensures
        r is Ok <==> upstream_ok(*d),
        r is Ok ==> r->Ok_0 == upstream_of(*d),
        r is Err ==> r->Err_0.wf(),
{
    let mut errs: Option<ValidationError> = None;
    let base_url = match opt_str_field(get_arg(&d.args, "baseURL")) {
        Ok(b) => b,
        Err(_) => {
            errs = join_err(errs, fail("the baseURL argument must be a string"));
            None
        },
    };
    let timeout = match opt_u64_field(get_arg(&d.args, "timeout")) {
        Ok(t) => t,
        Err(_) => {
            errs = join_err(errs, fail("the timeout argument must be a non-negative integer"));
            None
        },
    };
    match errs {
        None => Ok(Upstream { base_url, timeout }),
        Some(e) => Err(e),
    }
}

/// Decoding `@http(...)`: an HTTP fetch specification; `path` is required.
pub open spec fn http_ok(d: Directive) -> bool {
    &&& req_str_shaped(last_arg(d.args@, "path"@))
    &&& str_shaped(last_arg(d.args@, "method"@))
    &&& str_shaped(last_arg(d.args@, "baseURL"@))
    &&& str_shaped(last_arg(d.args@, "body"@))
}

/// The fetch specification `@http(...)` decodes to.
pub open spec fn http_of(d: Directive) -> Http {
    Http {
        path: req_str_of(last_arg(d.args@, "path"@)),
        method: str_of(last_arg(d.args@, "method"@)),
        base_url: str_of(last_arg(d.args@, "baseURL"@)),
        body: str_of(last_arg(d.args@, "body"@)),
    }
}

/// Decodes an `http` directive.
pub fn decode_http(d: &Directive) -> (r: Valid<Http>)
    ensures
        r is Ok <==> http_ok(*d),
        r is Ok ==> r->Ok_0 == http_of(*d),
        r is Err ==> r->Err_0.wf(),
{
    let mut errs: Option<ValidationError> = None;
    let path = match req_str_field(get_arg(&d.args, "path")) {
        Ok(p) => Some(p),
        Err(_) => {
            errs = join_err(errs, fail("a path argument holding a string is required"));
            None
        },
    };
    let method = match opt_str_field(get_arg(&d.args, "method")) {
        Ok(m) => m,
        Err(_) => {
            errs = join_err(errs, fail("the method argument must be a string"));
            None
        },
    };
    let base_url = match opt_str_field(get_arg(&d.args, "baseURL")) {
        Ok(b) => b,
        Err(_) => {
            errs = join_err(errs, fail("the baseURL argument must be a string"));
            None
        },
    };
    let body = match opt_str_field(get_arg(&d.args, "body")) {
        Ok(b) => b,
        Err(_) => {
            errs = join_err(errs, fail("the body argument must be a string"));
            None
        },
    };
    match (errs, path) {
        (None, Some(p)) => Ok(Http { path: p, method, base_url, body }),
        (Some(e), _) => Err(e),
        (None, None) => Err(fail("a path argument holding a string is required")),
    }
}

/// Decoding `@modify(...)`: a rename-or-omit marker.
pub open spec fn modify_ok(d: Directive) -> bool {
    &&& str_shaped(last_arg(d.args@, "name"@))
    &&& bool_shaped(last_arg(d.args@, "omit"@))
}

/// The marker `@modify(...)` decodes to.
pub open spec fn modify_of(d: Directive) -> ModifyField {
    ModifyField {
        name: str_of(last_arg(d.args@, "name"@)),
        omit: bool_of(last_arg(d.args@, "omit"@)),
    }
}

/// Decodes a `modify` directive.
pub fn decode_modify(d: &Directive) -> (r: Valid<ModifyField>)
    ensures
        r is Ok <==> modify_ok(*d),
        r is Ok ==> r->Ok_0 == modify_of(*d),
        r is Err ==> r->Err_0.wf(),
{
    let mut errs: Option<ValidationError> = None;
    let name = match opt_str_field(get_arg(&d.args, "name")) {
        Ok(n) => n,
        Err(_) => {
            errs = join_err(errs, fail("the name argument must be a string"));
            None
        },
    };
    let omit = match opt_bool_field(get_arg(&d.args, "omit")) {
        Ok(o) => o,
        Err(_) => {
            errs = join_err(errs, fail("the omit argument must be a boolean"));
            None
        },
    };
    match errs {
        None => Ok(ModifyField { name, omit }),
        Some(e) => Err(e),
    }
}

/// Decoding `@inline(...)`: an inlining path; `path` must be a list of
/// strings and is required.
pub open spec fn inline_ok(d: Directive) -> bool {
    match last_arg(d.args@, "path"@) {
        Some(Value::List(xs)) => all_strs(xs@),
        _ => false,
    }
}

/// The path elements `@inline(...)` decodes to.
pub open spec fn inline_path_of(d: Directive) -> Seq<String> {
    match last_arg(d.args@, "path"@) {
        Some(Value::List(xs)) => str_values(xs@),
        _ => Seq::empty(),
    }
}

/// Decodes an `inline` directive.
pub fn decode_inline(d: &Directive) -> (r: Valid<InlineType>)
    ensures
        r is Ok <==> inline_ok(*d),
        r is Ok ==> r->Ok_0.path@ == inline_path_of(*d),
        r is Err ==> r->Err_0.wf(),
{
    match get_arg(&d.args, "path") {
        Some(Value::List(xs)) => {
            match str_list(xs) {
                Ok(path) => Ok(InlineType { path }),
                Err(_) => Err(fail("every path element must be a string")),
            }
        },
        _ => Err(fail("a path argument holding a list of strings is required")),
    }
}

/// Decoding `@unsafe`: a bare marker that takes no arguments.
pub open spec fn unsafe_ok(d: Directive) -> bool {
    d.args@.len() == 0
}

/// Decodes an `unsafe` directive.
pub fn decode_unsafe(d: &Directive) -> (r: Valid<Unsafe>)
    ensures
        r is Ok <==> unsafe_ok(*d),
        r is Ok ==> r->Ok_0 == (Unsafe {  }),
        r is Err ==> r->Err_0.wf(),
{
    if d.args.len() == 0 {
        Ok(Unsafe {  })
    } else {
        Err(fail("no arguments are accepted"))
    }
}

/// Decoding `@groupBy(...)`: a batching path; `path` is optional and, when
/// present, must be a list of strings.
pub open spec fn groupby_ok(d: Directive) -> bool {
    match last_arg(d.args@, "path"@) {
        None => true,
        Some(Value::List(xs)) => all_strs(xs@),
        Some(_) => false,
    }
}

/// The path elements `@groupBy(...)` decodes to; empty when absent.
pub open spec fn groupby_path_of(d: Directive) -> Seq<String> {
    match last_arg(d.args@, "path"@) {
        Some(Value::List(xs)) => str_values(xs@),
        _ => Seq::empty(),
    }
}

/// Decodes a `groupBy` directive.
pub fn decode_group_by(d: &Directive) -> (r: Valid<GroupBy>)
    ensures
        r is Ok <==> groupby_ok(*d),
        r is Ok ==> r->Ok_0.path@ == groupby_path_of(*d),
        r is Err ==> r->Err_0.wf(),
{
    match get_arg(&d.args, "path") {
        None => {
            let path: Vec<String> = Vec::new();
            proof {
                assert(path@ =~= groupby_path_of(*d));
            }
            Ok(GroupBy { path })
        },
        Some(Value::List(xs)) => {
            match str_list(xs) {
                Ok(path) => Ok(GroupBy { path }),
                Err(_) => Err(fail("every path element must be a string")),
            }
        },
        Some(_) => Err(fail("the path argument must be a list of strings")),
    }
}

/// Decoding `@const(...)`: a constant result; `data` is required and may hold
/// any value.
pub open spec fn const_ok(d: Directive) -> bool {
    last_arg(d.args@, "data"@) is Some
}

/// The constant `@const(...)` decodes to.
pub open spec fn const_of(d: Directive) -> ConstField {
    match last_arg(d.args@, "data"@) {
        Some(v) => ConstField { data: v },
        None => vstd::pervasive::arbitrary(),
    }
}

/// Decodes a `const` directive. It takes the directive by value: the constant
/// is carried over into the IR as it stands.
pub fn decode_const(d: Directive) -> (r: Valid<ConstField>)
    ensures
        r is Ok <==> const_ok(d),
        r is Ok ==> r->Ok_0 == const_of(d),
        r is Err ==> r->Err_0.wf(),
{
    let ghost orig = d.args@;
    let mut args = d.args;
    let mut found: Option<Value> = None;
    while args.len() > 0
        invariant
            last_arg(orig, "data"@) == match found {
                Some(v) => Some(v),
                None => last_arg(args@, "data"@),
            },
        decreases args@.len(),
    {
        match args.pop() {
            Some((n, v)) => {
                if found.is_none() && str_eq(n.as_str(), "data") {
                    found = Some(v);
                }
            },
            None => {},
        }
    }
    match found {
        Some(data) => Ok(ConstField { data }),
        None => Err(fail("a data argument is required")),
    }
}

} // verus!
