//! The lowering pass: converts a parsed schema document into the
//! configuration model, resolving directives through the codecs and
//! accumulating every semantic error instead of stopping at the first one.

use vstd::prelude::*;
use crate::ast::BaseTypeRef;
use crate::ast::Directive;
use crate::ast::Document;
use crate::ast::Definition;
use crate::ast::FieldDef;
use crate::ast::InputValueDef;
use crate::ast::ObjectTypeDef;
use crate::ast::SchemaDef;
use crate::ast::TypeDef;
use crate::ast::TypeDefKind;
use crate::ast::TypeRef;
use crate::codec::const_of;
use crate::codec::const_ok;
use crate::codec::decode_const;
use crate::codec::decode_group_by;
use crate::codec::decode_http;
use crate::codec::decode_inline;
use crate::codec::decode_modify;
use crate::codec::decode_server;
use crate::codec::decode_unsafe;
use crate::codec::decode_upstream;
use crate::codec::groupby_ok;
use crate::codec::groupby_path_of;
use crate::codec::http_of;
use crate::codec::http_ok;
use crate::codec::inline_ok;
use crate::codec::inline_path_of;
use crate::codec::modify_of;
use crate::codec::modify_ok;
use crate::codec::server_of;
use crate::codec::server_ok;
use crate::codec::unsafe_ok;
use crate::codec::upstream_of;
use crate::codec::upstream_ok;
use crate::config::Arg;
use crate::config::Config;
use crate::config::ConstField;
use crate::config::Field;
use crate::config::GraphQL;
use crate::config::GroupBy;
use crate::config::Http;
use crate::config::InlineType;
use crate::config::ModifyField;
use crate::config::RootSchema;
use crate::config::Server;
use crate::config::Type;
use crate::config::Union;
use crate::config::Unsafe;
use crate::config::Upstream;
use crate::namemap::NameMap;
use crate::namemap::NameSet;
use crate::text::str_eq;
use crate::valid::join_err;
use crate::valid::merge;
use crate::valid::opt_err_wf;
use crate::valid::Valid;
use crate::valid::ValidationError;

verus! {

// ---------------------------------------------------------------------------
// Type-reference shape
// ---------------------------------------------------------------------------

/// The innermost named type a reference points at; for a list, the element's
/// name. A deeper nesting (a list of lists) has no name and falls back to the
/// empty string, a documented weakness kept for behavioural parity.
pub open spec fn type_of_spec(t: TypeRef) -> Seq<char> {
    match t.base {
        BaseTypeRef::Named(n) => n@,
        BaseTypeRef::List(inner) => match inner.base {
            BaseTypeRef::Named(n) => n@,
            BaseTypeRef::List(_) => Seq::empty(),
        },
    }
}

/// Whether the outer shape of a reference is a list.
pub open spec fn is_list(t: TypeRef) -> bool {
    t.base is List
}

/// Whether a list's element type is non-null; false for non-lists.
pub open spec fn list_elem_required(t: TypeRef) -> bool {
    match t.base {
        BaseTypeRef::List(inner) => !inner.nullable,
        _ => false,
    }
}

/// The name of the type a field or argument refers to.
pub fn to_type_of(ty: &TypeRef) -> (r: String)
    ensures
        r@ == type_of_spec(*ty),
{
    match &ty.base {
        BaseTypeRef::Named(n) => n.clone(),
        BaseTypeRef::List(inner) => match &inner.base {
            BaseTypeRef::Named(n) => n.clone(),
            BaseTypeRef::List(_) => {
                let r = String::new();
                proof {
                    assert(r@ =~= type_of_spec(*ty));
                }
                r
            },
        },
    }
}

// ---------------------------------------------------------------------------
// Directive selection: the last directive with a name wins
// ---------------------------------------------------------------------------

/// The last directive with the given name, if any.
pub open spec fn last_directive(dirs: Seq<Directive>, name: Seq<char>) -> Option<Directive>
    decreases dirs.len(),
{
    if dirs.len() == 0 {
        None
    } else if dirs.last().name@ == name {
        Some(dirs.last())
    } else {
        last_directive(dirs.drop_last(), name)
    }
}

/// The selected occurrence of each directive kind a field may carry.
struct DirectiveSlots {
    modify: Option<Directive>,
    inline: Option<Directive>,
    http: Option<Directive>,
    unsafe_op: Option<Directive>,
    group_by: Option<Directive>,
    const_field: Option<Directive>,
}

/// The first of two options, preferring the left.
spec fn first_of(a: Option<Directive>, b: Option<Directive>) -> Option<Directive> {
    if a is Some {
        a
    } else {
        b
    }
}

/// The six directive kinds a field may carry have pairwise distinct names;
/// they already differ in their first character.
proof fn lemma_kind_names_distinct()
    ensures
        "modify"@ != "inline"@,
        "modify"@ != "http"@,
        "modify"@ != "unsafe"@,
        "modify"@ != "groupBy"@,
        "modify"@ != "const"@,
        "inline"@ != "http"@,
        "inline"@ != "unsafe"@,
        "inline"@ != "groupBy"@,
        "inline"@ != "const"@,
        "http"@ != "unsafe"@,
        "http"@ != "groupBy"@,
        "http"@ != "const"@,
        "unsafe"@ != "groupBy"@,
        "unsafe"@ != "const"@,
        "groupBy"@ != "const"@,
{
    reveal_strlit("modify");
    reveal_strlit("inline");
    reveal_strlit("http");
    reveal_strlit("unsafe");
    reveal_strlit("groupBy");
    reveal_strlit("const");
    assert(("modify"@)[0] == 'm');
    assert(("inline"@)[0] == 'i');
    assert(("http"@)[0] == 'h');
    assert(("unsafe"@)[0] == 'u');
    assert(("groupBy"@)[0] == 'g');
    assert(("const"@)[0] == 'c');
}

/// Walks a directive list once and keeps, for each directive kind a field may
/// carry, its last occurrence; unknown directive names are ignored.
fn split_field_directives(dirs: Vec<Directive>) -> (r: DirectiveSlots)
    ensures
        r.modify == last_directive(dirs@, "modify"@),
        r.inline == last_directive(dirs@, "inline"@),
        r.http == last_directive(dirs@, "http"@),
        r.unsafe_op == last_directive(dirs@, "unsafe"@),
        r.group_by == last_directive(dirs@, "groupBy"@),
        r.const_field == last_directive(dirs@, "const"@),
{
    proof {
        reveal_strlit("modify");
        reveal_strlit("inline");
        reveal_strlit("http");
        reveal_strlit("unsafe");
        reveal_strlit("groupBy");
        reveal_strlit("const");
    }
    let ghost orig = dirs@;
    let mut rest = dirs;
    let mut slots = DirectiveSlots {
        modify: None,
        inline: None,
        http: None,
        unsafe_op: None,
        group_by: None,
        const_field: None,
    };
    while rest.len() > 0
        invariant
            first_of(slots.modify, last_directive(rest@, "modify"@)) == last_directive(
                orig,
                "modify"@,
            ),
            first_of(slots.inline, last_directive(rest@, "inline"@)) == last_directive(
                orig,
                "inline"@,
            ),
            first_of(slots.http, last_directive(rest@, "http"@)) == last_directive(orig, "http"@),
            first_of(slots.unsafe_op, last_directive(rest@, "unsafe"@)) == last_directive(
                orig,
                "unsafe"@,
            ),
            first_of(slots.group_by, last_directive(rest@, "groupBy"@)) == last_directive(
                orig,
                "groupBy"@,
            ),
            first_of(slots.const_field, last_directive(rest@, "const"@)) == last_directive(
                orig,
                "const"@,
            ),
        decreases rest@.len(),
    {
        let ghost before = rest@;
        match rest.pop() {
            Some(d) => {
                proof {
                    assert(rest@ =~= before.drop_last());
                    lemma_kind_names_distinct();
                }
                let is_modify = str_eq(d.name.as_str(), "modify");
                let is_inline = str_eq(d.name.as_str(), "inline");
                let is_http = str_eq(d.name.as_str(), "http");
                let is_unsafe = str_eq(d.name.as_str(), "unsafe");
                let is_group_by = str_eq(d.name.as_str(), "groupBy");
                let is_const = str_eq(d.name.as_str(), "const");
                if is_modify {
                    if slots.modify.is_none() {
                        slots.modify = Some(d);
                    }
                } else if is_inline {
                    if slots.inline.is_none() {
                        slots.inline = Some(d);
                    }
                } else if is_http {
                    if slots.http.is_none() {
                        slots.http = Some(d);
                    }
                } else if is_unsafe {
                    if slots.unsafe_op.is_none() {
                        slots.unsafe_op = Some(d);
                    }
                } else if is_group_by {
                    if slots.group_by.is_none() {
                        slots.group_by = Some(d);
                    }
                } else if is_const {
                    if slots.const_field.is_none() {
                        slots.const_field = Some(d);
                    }
                }
            },
            None => {},
        }
    }
    slots
}

// ---------------------------------------------------------------------------
// One decoded slot per directive kind
// ---------------------------------------------------------------------------

/// Whether the selected directive of each kind, where present, decodes.
pub open spec fn modify_slot_ok(dirs: Seq<Directive>) -> bool {
    match last_directive(dirs, "modify"@) {
        None => true,
        Some(d) => modify_ok(d),
    }
}

/// How a decoded `modify` slot relates to the directive list.
pub open spec fn modify_slot_matches(dirs: Seq<Directive>, o: Option<ModifyField>) -> bool {
    match last_directive(dirs, "modify"@) {
        None => o is None,
        Some(d) => o == Some(modify_of(d)),
    }
}

/// Whether the selected `inline` directive, where present, decodes.
pub open spec fn inline_slot_ok(dirs: Seq<Directive>) -> bool {
    match last_directive(dirs, "inline"@) {
        None => true,
        Some(d) => inline_ok(d),
    }
}

/// How a decoded `inline` slot relates to the directive list.
pub open spec fn inline_slot_matches(dirs: Seq<Directive>, o: Option<InlineType>) -> bool {
    match last_directive(dirs, "inline"@) {
        None => o is None,
        Some(d) => match o {
            Some(i) => i.path@ == inline_path_of(d),
            None => false,
        },
    }
}

/// Whether the selected `http` directive, where present, decodes.
pub open spec fn http_slot_ok(dirs: Seq<Directive>) -> bool {
    match last_directive(dirs, "http"@) {
        None => true,
        Some(d) => http_ok(d),
    }
}

/// How a decoded `http` slot relates to the directive list.
pub open spec fn http_slot_matches(dirs: Seq<Directive>, o: Option<Http>) -> bool {
    match last_directive(dirs, "http"@) {
        None => o is None,
        Some(d) => o == Some(http_of(d)),
    }
}

/// Whether the selected `unsafe` directive, where present, decodes.
pub open spec fn unsafe_slot_ok(dirs: Seq<Directive>) -> bool {
    match last_directive(dirs, "unsafe"@) {
        None => true,
        Some(d) => unsafe_ok(d),
    }
}

/// How a decoded `unsafe` slot relates to the directive list.
pub open spec fn unsafe_slot_matches(dirs: Seq<Directive>, o: Option<Unsafe>) -> bool {
    match last_directive(dirs, "unsafe"@) {
        None => o is None,
        Some(_) => o == Some(Unsafe {  }),
    }
}

/// Whether the selected `groupBy` directive, where present, decodes.
pub open spec fn groupby_slot_ok(dirs: Seq<Directive>) -> bool {
    match last_directive(dirs, "groupBy"@) {
        None => true,
        Some(d) => groupby_ok(d),
    }
}

/// How a decoded `groupBy` slot relates to the directive list.
pub open spec fn groupby_slot_matches(dirs: Seq<Directive>, o: Option<GroupBy>) -> bool {
    match last_directive(dirs, "groupBy"@) {
        None => o is None,
        Some(d) => match o {
            Some(g) => g.path@ == groupby_path_of(d),
            None => false,
        },
    }
}

/// Whether the selected `const` directive, where present, decodes.
pub open spec fn const_slot_ok(dirs: Seq<Directive>) -> bool {
    match last_directive(dirs, "const"@) {
        None => true,
        Some(d) => const_ok(d),
    }
}

/// How a decoded `const` slot relates to the directive list.
pub open spec fn const_slot_matches(dirs: Seq<Directive>, o: Option<ConstField>) -> bool {
    match last_directive(dirs, "const"@) {
        None => o is None,
        Some(d) => o == Some(const_of(d)),
    }
}

/// Whether every directive-derived behaviour of a field decodes.
pub open spec fn directives_ok(dirs: Seq<Directive>) -> bool {
    &&& modify_slot_ok(dirs)
    &&& inline_slot_ok(dirs)
    &&& http_slot_ok(dirs)
    &&& unsafe_slot_ok(dirs)
    &&& groupby_slot_ok(dirs)
    &&& const_slot_ok(dirs)
}

/// Decodes the selected `modify` directive, if one is present; absence is the
/// absent marker, not an error.
pub fn to_modify(d: Option<Directive>) -> (r: Valid<Option<ModifyField>>)
    ensures
        r is Ok <==> (match d {
            None => true,
            Some(dir) => modify_ok(dir),
        }),
        r is Ok ==> (match d {
            None => r->Ok_0 is None,
            Some(dir) => r->Ok_0 == Some(modify_of(dir)),
        }),
        r is Err ==> r->Err_0.wf(),
{
    match d {
        None => Ok(None),
        Some(dir) => match decode_modify(&dir) {
            Ok(m) => Ok(Some(m)),
            Err(e) => Err(e.trace("modify")),
        },
    }
}

/// Decodes the selected `inline` directive, if one is present.
pub fn to_inline(d: Option<Directive>) -> (r: Valid<Option<InlineType>>)
    ensures
        r is Ok <==> (match d {
            None => true,
            Some(dir) => inline_ok(dir),
        }),
        r is Ok ==> (match d {
            None => r->Ok_0 is None,
            Some(dir) => r->Ok_0 matches Some(i) && i.path@ == inline_path_of(dir),
        }),
        r is Err ==> r->Err_0.wf(),
{
    match d {
        None => Ok(None),
        Some(dir) => match decode_inline(&dir) {
            Ok(i) => Ok(Some(i)),
            Err(e) => Err(e.trace("inline")),
        },
    }
}

/// Decodes the selected `http` directive, if one is present.
pub fn to_http(d: Option<Directive>) -> (r: Valid<Option<Http>>)
    ensures
        r is Ok <==> (match d {
            None => true,
            Some(dir) => http_ok(dir),
        }),
        r is Ok ==> (match d {
            None => r->Ok_0 is None,
            Some(dir) => r->Ok_0 == Some(http_of(dir)),
        }),
        r is Err ==> r->Err_0.wf(),
{
    match d {
        None => Ok(None),
        Some(dir) => match decode_http(&dir) {
            Ok(h) => Ok(Some(h)),
            Err(e) => Err(e.trace("http")),
        },
    }
}

/// Decodes the selected `unsafe` directive, if one is present.
pub fn to_unsafe_operation(d: Option<Directive>) -> (r: Valid<Option<Unsafe>>)
    ensures
        r is Ok <==> (match d {
            None => true,
            Some(dir) => unsafe_ok(dir),
        }),
        r is Ok ==> (match d {
            None => r->Ok_0 is None,
            Some(_) => r->Ok_0 == Some(Unsafe {  }),
        }),
        r is Err ==> r->Err_0.wf(),
{
    match d {
        None => Ok(None),
        Some(dir) => match decode_unsafe(&dir) {
            Ok(u) => Ok(Some(u)),
            Err(e) => Err(e.trace("unsafe")),
        },
    }
}

/// Decodes the selected `groupBy` directive, if one is present.
pub fn to_batch(d: Option<Directive>) -> (r: Valid<Option<GroupBy>>)
    ensures
        r is Ok <==> (match d {
            None => true,
            Some(dir) => groupby_ok(dir),
        }),
        r is Ok ==> (match d {
            None => r->Ok_0 is None,
            Some(dir) => r->Ok_0 matches Some(g) && g.path@ == groupby_path_of(dir),
        }),
        r is Err ==> r->Err_0.wf(),
{
    match d {
        None => Ok(None),
        Some(dir) => match decode_group_by(&dir) {
            Ok(g) => Ok(Some(g)),
            Err(e) => Err(e.trace("groupBy")),
        },
    }
}

/// Decodes the selected `const` directive, if one is present.
pub fn to_const_field(d: Option<Directive>) -> (r: Valid<Option<ConstField>>)
    ensures
        r is Ok <==> (match d {
            None => true,
            Some(dir) => const_ok(dir),
        }),
        r is Ok ==> (match d {
            None => r->Ok_0 is None,
            Some(dir) => r->Ok_0 == Some(const_of(dir)),
        }),
        r is Err ==> r->Err_0.wf(),
{
    match d {
        None => Ok(None),
        Some(dir) => match decode_const(dir) {
            Ok(c) => Ok(Some(c)),
            Err(e) => Err(e.trace("const")),
        },
    }
}

// ---------------------------------------------------------------------------
// Fields and arguments
// ---------------------------------------------------------------------------

/// How a lowered field relates to the declared shape, description and
/// directives it came from; its argument table is related separately.
pub open spec fn common_matches(
    ty: TypeRef,
    desc: Option<String>,
    dirs: Seq<Directive>,
    f: Field,
) -> bool {
    &&& f.type_of@ == type_of_spec(ty)
    &&& f.list == is_list(ty)
    &&& f.required == !ty.nullable
    &&& f.list_type_required == list_elem_required(ty)
    &&& f.doc == desc
    &&& modify_slot_matches(dirs, f.modify)
    &&& inline_slot_matches(dirs, f.inline)
    &&& http_slot_matches(dirs, f.http)
    &&& unsafe_slot_matches(dirs, f.unsafe_operation)
    &&& groupby_slot_matches(dirs, f.group_by)
    &&& const_slot_matches(dirs, f.const_field)
}

/// Lowers the parts common to output fields and input-object fields: the
/// type shape, the description, and the six directive-derived behaviours,
/// each of which decodes independently, all failures accumulating. A field
/// without directives always lowers, with every behaviour absent.
pub fn to_common_field(ty: TypeRef, doc: Option<String>, directives: Vec<Directive>) -> (r: Valid<
    Field,
>)
    ensures
        r is Ok <==> directives_ok(directives@),
        r is Ok ==> common_matches(ty, doc, directives@, r->Ok_0),
        r is Ok ==> r->Ok_0.args.wf() && r->Ok_0.args@ =~= Map::<Seq<char>, Arg>::empty(),
        r is Err ==> r->Err_0.wf(),
{
    let slots = split_field_directives(directives);
    let m_v = to_modify(slots.modify);
    let i_v = to_inline(slots.inline);
    let h_v = to_http(slots.http);
    let u_v = to_unsafe_operation(slots.unsafe_op);
    let g_v = to_batch(slots.group_by);
    let c_v = to_const_field(slots.const_field);
    let mut errs: Option<ValidationError> = None;
    let modify = match m_v {
        Ok(x) => x,
        Err(e) => {
            errs = join_err(errs, e);
            None
        },
    };
    let inline = match i_v {
        Ok(x) => x,
        Err(e) => {
            errs = join_err(errs, e);
            None
        },
    };
    let http = match h_v {
        Ok(x) => x,
        Err(e) => {
            errs = join_err(errs, e);
            None
        },
    };
    let unsafe_operation = match u_v {
        Ok(x) => x,
        Err(e) => {
            errs = join_err(errs, e);
            None
        },
    };
    let group_by = match g_v {
        Ok(x) => x,
        Err(e) => {
            errs = join_err(errs, e);
            None
        },
    };
    let const_field = match c_v {
        Ok(x) => x,
        Err(e) => {
            errs = join_err(errs, e);
            None
        },
    };
    match errs {
        None => {
            let type_of = to_type_of(&ty);
            let list = matches!(&ty.base, BaseTypeRef::List(_));
            let list_type_required = match &ty.base {
                BaseTypeRef::List(inner) => !inner.nullable,
                _ => false,
            };
            let required = !ty.nullable;
            Ok(
                Field {
                    type_of,
                    list,
                    required,
                    list_type_required,
                    args: NameMap::new(),
                    doc,
                    modify,
                    inline,
                    http,
                    unsafe_operation,
                    group_by,
                    const_field,
                },
            )
        },
        Some(e) => Err(e),
    }
}

/// Whether one argument definition lowers; only its `modify` directive can
/// fail to decode.
pub open spec fn arg_ok(ivd: InputValueDef) -> bool {
    modify_slot_ok(ivd.directives@)
}

/// How a lowered argument relates to its definition: the shape axes, the
/// description, the decoded `modify` marker, and the default carried over.
pub open spec fn arg_matches(ivd: InputValueDef, a: Arg) -> bool {
    &&& a.type_of@ == type_of_spec(ivd.ty)
    &&& a.list == is_list(ivd.ty)
    &&& a.required == !ivd.ty.nullable
    &&& a.doc == ivd.description
    &&& modify_slot_matches(ivd.directives@, a.modify)
    &&& a.default_value == ivd.default_value
}

/// Lowers one argument definition.
pub fn to_arg(ivd: InputValueDef) -> (r: Valid<Arg>)
    ensures
        r is Ok <==> arg_ok(ivd),
        r is Ok ==> arg_matches(ivd, r->Ok_0),
        r is Err ==> r->Err_0.wf(),
{
    let InputValueDef { name: _, description, ty, directives, default_value } = ivd;
    let type_of = to_type_of(&ty);
    let list = matches!(&ty.base, BaseTypeRef::List(_));
    let required = !ty.nullable;
    let slots = split_field_directives(directives);
    match to_modify(slots.modify) {
        Ok(modify) => Ok(Arg { type_of, list, required, doc: description, modify, default_value }),
        Err(e) => Err(e),
    }
}

// ---------------------------------------------------------------------------
// Name-keyed tables built from definition lists
// ---------------------------------------------------------------------------

/// Taking one more element adds exactly that element to the set of a prefix.
proof fn lemma_take_to_set_step<A>(s: Seq<A>, k: int)
    requires
        0 <= k < s.len(),
    ensures
        s.take(k + 1).to_set() =~= s.take(k).to_set().insert(s[k]),
{
    assert forall|a: A|
        s.take(k + 1).to_set().contains(a) == s.take(k).to_set().insert(s[k]).contains(a) by {
        if s.take(k + 1).contains(a) {
            let i = choose|i: int| 0 <= i < k + 1 && #[trigger] s.take(k + 1)[i] == a;
            if i < k {
                assert(s.take(k)[i] == a);
                assert(s.take(k).contains(a));
            }
        }
        if s.take(k).contains(a) {
            let i = choose|i: int| 0 <= i < k && #[trigger] s.take(k)[i] == a;
            assert(s.take(k + 1)[i] == a);
            assert(s.take(k + 1).contains(a));
        }
        if a == s[k] {
            assert(s.take(k + 1)[k] == a);
            assert(s.take(k + 1).contains(a));
        }
    }
}

/// The names of a sequence of argument definitions, in order.
pub open spec fn arg_names(s: Seq<InputValueDef>) -> Seq<Seq<char>> {
    s.map_values(|ivd: InputValueDef| ivd.name@)
}

/// The last argument definition with the given name, if any.
pub open spec fn last_input_named(s: Seq<InputValueDef>, n: Seq<char>) -> Option<InputValueDef>
    decreases s.len(),
{
    if s.len() == 0 {
        None
    } else if s.last().name@ == n {
        Some(s.last())
    } else {
        last_input_named(s.drop_last(), n)
    }
}

/// Whether every argument definition lowers.
pub open spec fn args_ok(s: Seq<InputValueDef>) -> bool {
    forall|i: int| 0 <= i < s.len() ==> arg_ok(#[trigger] s[i])
}

/// How a lowered argument table relates to the argument definitions: one
/// entry for each declared name, and each entry lowered from the last
/// definition that bears its name.
pub open spec fn args_table_matches(s: Seq<InputValueDef>, m: NameMap<Arg>) -> bool {
    &&& m.wf()
    &&& m@.dom() =~= arg_names(s).to_set()
    &&& forall|n: Seq<char>|
        #[trigger] m@.dom().contains(n) ==> (match last_input_named(s, n) {
            Some(ivd) => arg_matches(ivd, m@[n]),
            None => false,
        })
}

/// Lowers a field's argument definitions into a name-sorted table; a later
/// argument replaces an earlier one of the same name. Failures accumulate
/// across arguments, each traced with its argument's name.
pub fn to_args(args: Vec<InputValueDef>) -> (r: Valid<NameMap<Arg>>)
    ensures
        r is Ok <==> args_ok(args@),
        r is Ok ==> args_table_matches(args@, r->Ok_0),
        r is Err ==> r->Err_0.wf(),
{
    let ghost orig = args@;
    let mut rest = args;
    let mut m = NameMap::<Arg>::new();
    let total = rest.len();
    proof {
        assert(orig.len() == total as int);
    }
    let mut errs: Option<ValidationError> = None;
    let mut k: usize = 0;
    while rest.len() > 0
        invariant
            orig.len() <= usize::MAX,
            k + rest@.len() == orig.len(),
            rest@ =~= orig.skip(k as int),
            opt_err_wf(errs),
            (errs is None) <==> (forall|i: int| 0 <= i < k ==> arg_ok(#[trigger] orig[i])),
            m.wf(),
            errs is None ==> m@.dom() =~= arg_names(orig).take(k as int).to_set(),
            errs is None ==> forall|n: Seq<char>|
                #[trigger] m@.dom().contains(n) ==> (match last_input_named(
                    orig.take(k as int),
                    n,
                ) {
                    Some(ivd) => arg_matches(ivd, m@[n]),
                    None => false,
                }),
        decreases rest@.len(),
    {
        let ivd = rest.remove(0);
        proof {
            assert(ivd == orig[k as int]);
            assert(orig.take(k as int + 1).drop_last() =~= orig.take(k as int));
            assert(orig.take(k as int + 1).last() == orig[k as int]);
            lemma_take_to_set_step(arg_names(orig), k as int);
            assert(arg_names(orig)[k as int] == orig[k as int].name@);
        }
        let key = ivd.name.clone();
        match to_arg(ivd) {
            Ok(a) => {
                let ghost m0 = m@;
                m.insert(key, a);
                proof {
                    if errs is None {
                        assert forall|n: Seq<char>| #[trigger] m@.dom().contains(n) implies (
                        match last_input_named(orig.take(k as int + 1), n) {
                            Some(iv) => arg_matches(iv, m@[n]),
                            None => false,
                        }) by {
                            if n == key@ {
                                assert(last_input_named(orig.take(k as int + 1), n) == Some(
                                    orig[k as int],
                                ));
                            } else {
                                assert(m@[n] == m0[n]);
                                assert(last_input_named(orig.take(k as int + 1), n)
                                    == last_input_named(orig.take(k as int), n));
                            }
                        }
                    }
                }
            },
            Err(e) => {
                errs = join_err(errs, e.trace(key.as_str()));
            },
        }
        k += 1;
        proof {
            assert(rest@ =~= orig.skip(k as int));
            assert forall|i: int| 0 <= i < k && (errs is None) implies arg_ok(
                #[trigger] orig[i],
            ) by {}
        }
    }
    proof {
        assert(orig.take(k as int) =~= orig);
        assert(arg_names(orig).take(k as int) =~= arg_names(orig));
    }
    match errs {
        None => Ok(m),
        Some(e) => Err(e),
    }
}

/// Whether one field definition lowers.
pub open spec fn field_ok(fd: FieldDef) -> bool {
    &&& directives_ok(fd.directives@)
    &&& args_ok(fd.arguments@)
}

/// How a lowered field relates to its definition.
pub open spec fn field_matches(fd: FieldDef, f: Field) -> bool {
    &&& common_matches(fd.ty, fd.description, fd.directives@, f)
    &&& args_table_matches(fd.arguments@, f.args)
}

/// Lowers one field definition: the common parts, and its argument table.
pub fn to_field(fd: FieldDef) -> (r: Valid<Field>)
    ensures
        r is Ok <==> field_ok(fd),
        r is Ok ==> field_matches(fd, r->Ok_0),
        r is Err ==> r->Err_0.wf(),
{
    let FieldDef { name: _, description, ty, arguments, directives } = fd;
    let common_v = to_common_field(ty, description, directives);
    let args_v = to_args(arguments);
    match merge(common_v, args_v) {
        Ok(pair) => {
            let (mut f, am) = pair;
            f.args = am;
            Ok(f)
        },
        Err(e) => Err(e),
    }
}

/// Whether one input-object field definition lowers.
pub open spec fn input_field_ok(ivd: InputValueDef) -> bool {
    directives_ok(ivd.directives@)
}

/// How a lowered input-object field relates to its definition: as a field
/// with an empty argument table; the default value is not carried over.
pub open spec fn input_field_matches(ivd: InputValueDef, f: Field) -> bool {
    &&& common_matches(ivd.ty, ivd.description, ivd.directives@, f)
    &&& f.args.wf()
    &&& f.args@ =~= Map::<Seq<char>, Arg>::empty()
}

/// Lowers one input-object field definition.
pub fn to_input_object_field(ivd: InputValueDef) -> (r: Valid<Field>)
    ensures
        r is Ok <==> input_field_ok(ivd),
        r is Ok ==> input_field_matches(ivd, r->Ok_0),
        r is Err ==> r->Err_0.wf(),
{
    let InputValueDef { name: _, description, ty, directives, default_value: _ } = ivd;
    to_common_field(ty, description, directives)
}

/// The number of field definitions in a list that do not lower.
pub open spec fn num_bad_fields(s: Seq<FieldDef>) -> int
    decreases s.len(),
{
    if s.len() == 0 {
        0
    } else {
        num_bad_fields(s.drop_last()) + (if field_ok(s.last()) {
            0int
        } else {
            1int
        })
    }
}

/// The names of a sequence of field definitions, in order.
pub open spec fn field_names(s: Seq<FieldDef>) -> Seq<Seq<char>> {
    s.map_values(|fd: FieldDef| fd.name@)
}

/// The last field definition with the given name, if any.
pub open spec fn last_field_named(s: Seq<FieldDef>, n: Seq<char>) -> Option<FieldDef>
    decreases s.len(),
{
    if s.len() == 0 {
        None
    } else if s.last().name@ == n {
        Some(s.last())
    } else {
        last_field_named(s.drop_last(), n)
    }
}

/// Whether every field definition lowers.
pub open spec fn fields_ok(s: Seq<FieldDef>) -> bool {
    forall|i: int| 0 <= i < s.len() ==> field_ok(#[trigger] s[i])
}

/// How a lowered field table relates to the field definitions.
pub open spec fn fields_table_matches(s: Seq<FieldDef>, m: NameMap<Field>) -> bool {
    &&& m.wf()
    &&& m@.dom() =~= field_names(s).to_set()
    &&& forall|n: Seq<char>|
        #[trigger] m@.dom().contains(n) ==> (match last_field_named(s, n) {
            Some(fd) => field_matches(fd, m@[n]),
            None => false,
        })
}

/// Lowers a list of field definitions into a name-sorted table; a later
/// field replaces an earlier one of the same name. Failures accumulate
/// across fields, each traced with its field's name.
pub fn to_fields(fields: Vec<FieldDef>) -> (r: Valid<NameMap<Field>>)
    ensures
        r is Ok <==> fields_ok(fields@),
        r is Ok ==> fields_table_matches(fields@, r->Ok_0),
        r is Ok ==> num_bad_fields(fields@) == 0,
        r is Err ==> r->Err_0.wf(),
        r is Err ==> r->Err_0.causes().len() >= num_bad_fields(fields@),
{
    let ghost orig = fields@;
    let mut rest = fields;
    let mut m = NameMap::<Field>::new();
    let total = rest.len();
    proof {
        assert(orig.len() == total as int);
    }
    let mut errs: Option<ValidationError> = None;
    let mut k: usize = 0;
    while rest.len() > 0
        invariant
            orig.len() <= usize::MAX,
            k + rest@.len() == orig.len(),
            rest@ =~= orig.skip(k as int),
            opt_err_wf(errs),
            (errs is None) <==> (forall|i: int| 0 <= i < k ==> field_ok(#[trigger] orig[i])),
            errs is None ==> num_bad_fields(orig.take(k as int)) == 0,
            errs matches Some(a) ==> a.causes().len() >= num_bad_fields(orig.take(k as int)),
            m.wf(),
            errs is None ==> m@.dom() =~= field_names(orig).take(k as int).to_set(),
            errs is None ==> forall|n: Seq<char>|
                #[trigger] m@.dom().contains(n) ==> (match last_field_named(
                    orig.take(k as int),
                    n,
                ) {
                    Some(fd) => field_matches(fd, m@[n]),
                    None => false,
                }),
        decreases rest@.len(),
    {
        let fd = rest.remove(0);
        proof {
            assert(fd == orig[k as int]);
            assert(orig.take(k as int + 1).drop_last() =~= orig.take(k as int));
            assert(orig.take(k as int + 1).last() == orig[k as int]);
            lemma_take_to_set_step(field_names(orig), k as int);
            assert(field_names(orig)[k as int] == orig[k as int].name@);
            assert(num_bad_fields(orig.take(k as int + 1)) == num_bad_fields(orig.take(k as int))
                + (if field_ok(orig[k as int]) {
                0int
            } else {
                1int
            }));
        }
        let key = fd.name.clone();
        match to_field(fd) {
            Ok(f) => {
                let ghost m0 = m@;
                m.insert(key, f);
                proof {
                    if errs is None {
                        assert forall|n: Seq<char>| #[trigger] m@.dom().contains(n) implies (
                        match last_field_named(orig.take(k as int + 1), n) {
                            Some(fdd) => field_matches(fdd, m@[n]),
                            None => false,
                        }) by {
                            if n == key@ {
                                assert(last_field_named(orig.take(k as int + 1), n) == Some(
                                    orig[k as int],
                                ));
                            } else {
                                assert(m@[n] == m0[n]);
                                assert(last_field_named(orig.take(k as int + 1), n)
                                    == last_field_named(orig.take(k as int), n));
                            }
                        }
                    }
                }
            },
            Err(e) => {
                errs = join_err(errs, e.trace(key.as_str()));
            },
        }
        k += 1;
        proof {
            assert(rest@ =~= orig.skip(k as int));
        }
    }
    proof {
        assert(orig.take(k as int) =~= orig);
        assert(field_names(orig).take(k as int) =~= field_names(orig));
    }
    match errs {
        None => Ok(m),
        Some(e) => Err(e),
    }
}

/// The number of input-object field definitions in a list that do not lower.
pub open spec fn num_bad_input_fields(s: Seq<InputValueDef>) -> int
    decreases s.len(),
{
    if s.len() == 0 {
        0
    } else {
        num_bad_input_fields(s.drop_last()) + (if input_field_ok(s.last()) {
            0int
        } else {
            1int
        })
    }
}

/// Whether every input-object field definition lowers.
pub open spec fn input_fields_ok(s: Seq<InputValueDef>) -> bool {
    forall|i: int| 0 <= i < s.len() ==> input_field_ok(#[trigger] s[i])
}

/// How a lowered input-object field table relates to its definitions.
pub open spec fn input_fields_table_matches(s: Seq<InputValueDef>, m: NameMap<Field>) -> bool {
    &&& m.wf()
    &&& m@.dom() =~= arg_names(s).to_set()
    &&& forall|n: Seq<char>|
        #[trigger] m@.dom().contains(n) ==> (match last_input_named(s, n) {
            Some(ivd) => input_field_matches(ivd, m@[n]),
            None => false,
        })
}

/// Lowers the fields of an input-object type into a name-sorted table.
pub fn to_input_object_fields(fields: Vec<InputValueDef>) -> (r: Valid<NameMap<Field>>)
    ensures
        r is Ok <==> input_fields_ok(fields@),
        r is Ok ==> input_fields_table_matches(fields@, r->Ok_0),
        r is Ok ==> num_bad_input_fields(fields@) == 0,
        r is Err ==> r->Err_0.wf(),
        r is Err ==> r->Err_0.causes().len() >= num_bad_input_fields(fields@),
{
    let ghost orig = fields@;
    let mut rest = fields;
    let mut m = NameMap::<Field>::new();
    let total = rest.len();
    proof {
        assert(orig.len() == total as int);
    }
    let mut errs: Option<ValidationError> = None;
    let mut k: usize = 0;
    while rest.len() > 0
        invariant
            orig.len() <= usize::MAX,
            k + rest@.len() == orig.len(),
            rest@ =~= orig.skip(k as int),
            opt_err_wf(errs),
            (errs is None) <==> (forall|i: int| 0 <= i < k ==> input_field_ok(
                #[trigger] orig[i],
            )),
            errs is None ==> num_bad_input_fields(orig.take(k as int)) == 0,
            errs matches Some(a) ==> a.causes().len() >= num_bad_input_fields(
                orig.take(k as int),
            ),
            m.wf(),
            errs is None ==> m@.dom() =~= arg_names(orig).take(k as int).to_set(),
            errs is None ==> forall|n: Seq<char>|
                #[trigger] m@.dom().contains(n) ==> (match last_input_named(
                    orig.take(k as int),
                    n,
                ) {
                    Some(ivd) => input_field_matches(ivd, m@[n]),
                    None => false,
                }),
        decreases rest@.len(),
    {
        let ivd = rest.remove(0);
        proof {
            assert(ivd == orig[k as int]);
            assert(orig.take(k as int + 1).drop_last() =~= orig.take(k as int));
            assert(orig.take(k as int + 1).last() == orig[k as int]);
            lemma_take_to_set_step(arg_names(orig), k as int);
            assert(arg_names(orig)[k as int] == orig[k as int].name@);
            assert(num_bad_input_fields(orig.take(k as int + 1)) == num_bad_input_fields(
                orig.take(k as int),
            ) + (if input_field_ok(orig[k as int]) {
                0int
            } else {
                1int
            }));
        }
        let key = ivd.name.clone();
        match to_input_object_field(ivd) {
            Ok(f) => {
                let ghost m0 = m@;
                m.insert(key, f);
                proof {
                    if errs is None {
                        assert forall|n: Seq<char>| #[trigger] m@.dom().contains(n) implies (
                        match last_input_named(orig.take(k as int + 1), n) {
                            Some(iv) => input_field_matches(iv, m@[n]),
                            None => false,
                        }) by {
                            if n == key@ {
                                assert(last_input_named(orig.take(k as int + 1), n) == Some(
                                    orig[k as int],
                                ));
                            } else {
                                assert(m@[n] == m0[n]);
                                assert(last_input_named(orig.take(k as int + 1), n)
                                    == last_input_named(orig.take(k as int), n));
                            }
                        }
                    }
                }
            },
            Err(e) => {
                errs = join_err(errs, e.trace(key.as_str()));
            },
        }
        k += 1;
        proof {
            assert(rest@ =~= orig.skip(k as int));
        }
    }
    proof {
        assert(orig.take(k as int) =~= orig);
        assert(arg_names(orig).take(k as int) =~= arg_names(orig));
    }
    match errs {
        None => Ok(m),
        Some(e) => Err(e),
    }
}

// ---------------------------------------------------------------------------
// Type lowering
// ---------------------------------------------------------------------------

/// Whether a definition is a union.
pub open spec fn is_union(td: TypeDef) -> bool {
    td.kind is Union
}

/// Whether one type definition lowers; only its fields can fail, so enums,
/// scalars and unions always do.
pub open spec fn type_ok(td: TypeDef) -> bool {
    match td.kind {
        TypeDefKind::Object(od) => fields_ok(od.fields@),
        TypeDefKind::Interface(od) => fields_ok(od.fields@),
        TypeDefKind::InputObject(ivs) => input_fields_ok(ivs@),
        _ => true,
    }
}

/// Whether every type definition lowers.
pub open spec fn types_ok(s: Seq<TypeDef>) -> bool {
    forall|i: int| 0 <= i < s.len() ==> type_ok(#[trigger] s[i])
}

/// The views of a sequence of names.
pub open spec fn name_views(s: Seq<String>) -> Seq<Seq<char>> {
    s.map_values(|n: String| n@)
}

/// A type node with nothing populated: no fields, no description, not an
/// interface, nothing implemented.
pub open spec fn empty_type_base(t: Type) -> bool {
    &&& t.fields.wf()
    &&& t.fields@ =~= Map::<Seq<char>, Field>::empty()
    &&& t.doc is None
    &&& !t.interface
    &&& t.implements.wf()
    &&& t.implements@ =~= Set::<Seq<char>>::empty()
}

/// How a lowered object or interface node relates to its definition.
pub open spec fn obj_matches(od: ObjectTypeDef, desc: Option<String>, iface: bool, t: Type) -> bool {
    &&& fields_table_matches(od.fields@, t.fields)
    &&& t.doc == desc
    &&& t.interface == iface
    &&& t.implements.wf()
    &&& t.implements@ =~= name_views(od.implements@).to_set()
    &&& t.variants is None
    &&& !t.scalar
}

/// How a lowered type node relates to its definition, by kind. A union
/// definition has no type node: it lowers into the union table instead.
pub open spec fn type_matches(td: TypeDef, t: Type) -> bool {
    match td.kind {
        TypeDefKind::Object(od) => obj_matches(od, td.description, false, t),
        TypeDefKind::Interface(od) => obj_matches(od, td.description, true, t),
        TypeDefKind::Enum(vals) => {
            &&& empty_type_base(t)
            &&& t.variants == Some(vals)
            &&& !t.scalar
        },
        TypeDefKind::InputObject(ivs) => {
            &&& input_fields_table_matches(ivs@, t.fields)
            &&& t.doc is None
            &&& !t.interface
            &&& t.implements.wf()
            &&& t.implements@ =~= Set::<Seq<char>>::empty()
            &&& t.variants is None
            &&& !t.scalar
        },
        TypeDefKind::Union(_) => true,
        TypeDefKind::Scalar => {
            &&& empty_type_base(t)
            &&& t.variants is None
            &&& t.scalar
        },
    }
}

/// A fresh type node with nothing populated.
fn empty_type() -> (t: Type)
    ensures
        empty_type_base(t),
        t.variants is None,
        !t.scalar,
{
    Type {
        fields: NameMap::new(),
        doc: None,
        interface: false,
        implements: NameSet::new(),
        variants: None,
        scalar: false,
    }
}

/// A scalar marker: a leaf type with no fields of its own.
pub fn to_scalar_type() -> (t: Type)
    ensures
        empty_type_base(t),
        t.variants is None,
        t.scalar,
{
    let mut t = empty_type();
    t.scalar = true;
    t
}

/// An enum node: the variant names verbatim, in declaration order.
pub fn to_enum(variants: Vec<String>) -> (t: Type)
    ensures
        empty_type_base(t),
        !t.scalar,
        t.variants == Some(variants),
{
    let mut t = empty_type();
    t.variants = Some(variants);
    t
}

/// Lowers an object or interface type: its fields, description, interface
/// flag, and the set of interface names it implements.
pub fn to_object_type(object_type: ObjectTypeDef, description: Option<String>, interface: bool) -> (r: Valid<Type>)
    ensures
        r is Ok <==> fields_ok(object_type.fields@),
        r is Ok ==> obj_matches(object_type, description, interface, r->Ok_0),
        r is Ok ==> num_bad_fields(object_type.fields@) == 0,
        r is Err ==> r->Err_0.wf(),
        r is Err ==> r->Err_0.causes().len() >= num_bad_fields(object_type.fields@),
{
    let ObjectTypeDef { fields, implements } = object_type;
    match to_fields(fields) {
        Ok(fm) => {
            let ghost orig = implements@;
            let mut rest = implements;
            let mut imp = NameSet::new();
            while rest.len() > 0
                invariant
                    imp.wf(),
                    imp@.union(name_views(rest@).to_set()) =~= name_views(orig).to_set(),
                decreases rest@.len(),
            {
                let ghost before = rest@;
                match rest.pop() {
                    Some(nm) => {
                        proof {
                            assert(name_views(before).drop_last() =~= name_views(rest@));
                            lemma_take_to_set_step(name_views(before), before.len() - 1);
                            assert(name_views(before).take(before.len() as int) =~= name_views(
                                before,
                            ));
                            assert(name_views(before).take(before.len() - 1) =~= name_views(
                                rest@,
                            ));
                            assert(name_views(before)[before.len() - 1] == nm@);
                        }
                        imp.insert(nm);
                        proof {
                            assert(imp@.union(name_views(rest@).to_set()) =~= name_views(
                                orig,
                            ).to_set());
                        }
                    },
                    None => {},
                }
            }
            proof {
                assert(name_views(rest@).to_set() =~= Set::<Seq<char>>::empty());
                assert(imp@ =~= name_views(orig).to_set());
            }
            Ok(
                Type {
                    fields: fm,
                    doc: description,
                    interface,
                    implements: imp,
                    variants: None,
                    scalar: false,
                },
            )
        },
        Err(e) => Err(e),
    }
}

/// Lowers an input-object type: its fields under the input rule.
pub fn to_input_object(input_object_fields: Vec<InputValueDef>) -> (r: Valid<Type>)
    ensures
        r is Ok <==> input_fields_ok(input_object_fields@),
        r is Ok ==> {
            &&& input_fields_table_matches(input_object_fields@, r->Ok_0.fields)
            &&& r->Ok_0.doc is None
            &&& !r->Ok_0.interface
            &&& r->Ok_0.implements.wf()
            &&& r->Ok_0.implements@ =~= Set::<Seq<char>>::empty()
            &&& r->Ok_0.variants is None
            &&& !r->Ok_0.scalar
        },
        r is Ok ==> num_bad_input_fields(input_object_fields@) == 0,
        r is Err ==> r->Err_0.wf(),
        r is Err ==> r->Err_0.causes().len() >= num_bad_input_fields(input_object_fields@),
{
    match to_input_object_fields(input_object_fields) {
        Ok(fm) => Ok(
            Type {
                fields: fm,
                doc: None,
                interface: false,
                implements: NameSet::new(),
                variants: None,
                scalar: false,
            },
        ),
        Err(e) => Err(e),
    }
}

/// A lowered union: the member names verbatim, and the description.
pub open spec fn union_matches(td: TypeDef, u: Union) -> bool {
    match td.kind {
        TypeDefKind::Union(members) => u.types == members && u.doc == td.description,
        _ => false,
    }
}

/// Builds one union from its member names and description.
pub fn to_union(members: Vec<String>, doc: Option<String>) -> (u: Union)
    ensures
        u == (Union { types: members, doc }),
{
    Union { types: members, doc }
}

/// The names of the non-union definitions, in order.
pub open spec fn non_union_names(s: Seq<TypeDef>) -> Seq<Seq<char>>
    decreases s.len(),
{
    if s.len() == 0 {
        Seq::empty()
    } else if is_union(s.last()) {
        non_union_names(s.drop_last())
    } else {
        non_union_names(s.drop_last()).push(s.last().name@)
    }
}

/// The last non-union definition with the given name, if any.
pub open spec fn last_non_union_named(s: Seq<TypeDef>, n: Seq<char>) -> Option<TypeDef>
    decreases s.len(),
{
    if s.len() == 0 {
        None
    } else if !is_union(s.last()) && s.last().name@ == n {
        Some(s.last())
    } else {
        last_non_union_named(s.drop_last(), n)
    }
}

/// The names of the union definitions, in order.
pub open spec fn union_names(s: Seq<TypeDef>) -> Seq<Seq<char>>
    decreases s.len(),
{
    if s.len() == 0 {
        Seq::empty()
    } else if is_union(s.last()) {
        union_names(s.drop_last()).push(s.last().name@)
    } else {
        union_names(s.drop_last())
    }
}

/// The last union definition with the given name, if any.
pub open spec fn last_union_named(s: Seq<TypeDef>, n: Seq<char>) -> Option<TypeDef>
    decreases s.len(),
{
    if s.len() == 0 {
        None
    } else if is_union(s.last()) && s.last().name@ == n {
        Some(s.last())
    } else {
        last_union_named(s.drop_last(), n)
    }
}

/// The number of field definitions under one type definition that do not
/// lower; a definition without fields contributes nothing.
pub open spec fn num_bad_fields_of(td: TypeDef) -> int {
    match td.kind {
        TypeDefKind::Object(od) => num_bad_fields(od.fields@),
        TypeDefKind::Interface(od) => num_bad_fields(od.fields@),
        TypeDefKind::InputObject(ivs) => num_bad_input_fields(ivs@),
        _ => 0,
    }
}

/// The number of failing field definitions across a list of definitions.
pub open spec fn num_bad_defs(s: Seq<TypeDef>) -> int
    decreases s.len(),
{
    if s.len() == 0 {
        0
    } else {
        num_bad_defs(s.drop_last()) + num_bad_fields_of(s.last())
    }
}

/// How a lowered type table relates to a list of definitions: one entry per
/// non-union name, each lowered from the last non-union definition bearing
/// it, and no entry for any union.
pub open spec fn types_table_matches(s: Seq<TypeDef>, m: NameMap<Type>) -> bool {
    &&& m.wf()
    &&& m@.dom() =~= non_union_names(s).to_set()
    &&& forall|n: Seq<char>|
        #[trigger] m@.dom().contains(n) ==> (match last_non_union_named(s, n) {
            Some(td) => type_matches(td, m@[n]),
            None => false,
        })
}

/// How a lowered union table relates to a list of definitions.
pub open spec fn unions_table_matches(s: Seq<TypeDef>, m: NameMap<Union>) -> bool {
    &&& m.wf()
    &&& m@.dom() =~= union_names(s).to_set()
    &&& forall|n: Seq<char>|
        #[trigger] m@.dom().contains(n) ==> (match last_union_named(s, n) {
            Some(td) => union_matches(td, m@[n]),
            None => false,
        })
}

/// Lowers type definitions into the name-sorted type table. Union
/// definitions are skipped — they belong to the union table — and a later
/// definition replaces an earlier one of the same name. Failures accumulate
/// across definitions, each traced with its type's name.
pub fn to_types(type_definitions: Vec<TypeDef>) -> (r: Valid<NameMap<Type>>)
    ensures
        r is Ok <==> types_ok(type_definitions@),
        r is Ok ==> types_table_matches(type_definitions@, r->Ok_0),
        r is Ok ==> num_bad_defs(type_definitions@) == 0,
        r is Err ==> r->Err_0.wf(),
        r is Err ==> r->Err_0.causes().len() >= num_bad_defs(type_definitions@),
{
    let ghost orig = type_definitions@;
    let mut rest = type_definitions;
    let mut m = NameMap::<Type>::new();
    let total = rest.len();
    proof {
        assert(orig.len() == total as int);
    }
    let mut errs: Option<ValidationError> = None;
    let mut k: usize = 0;
    while rest.len() > 0
        invariant
            orig.len() <= usize::MAX,
            k + rest@.len() == orig.len(),
            rest@ =~= orig.skip(k as int),
            opt_err_wf(errs),
            (errs is None) <==> (forall|i: int| 0 <= i < k ==> type_ok(#[trigger] orig[i])),
            errs is None ==> num_bad_defs(orig.take(k as int)) == 0,
            errs matches Some(a) ==> a.causes().len() >= num_bad_defs(orig.take(k as int)),
            m.wf(),
            errs is None ==> m@.dom() =~= non_union_names(orig.take(k as int)).to_set(),
            errs is None ==> forall|n: Seq<char>|
                #[trigger] m@.dom().contains(n) ==> (match last_non_union_named(
                    orig.take(k as int),
                    n,
                ) {
                    Some(td) => type_matches(td, m@[n]),
                    None => false,
                }),
        decreases rest@.len(),
    {
        let td = rest.remove(0);
        proof {
            assert(td == orig[k as int]);
            assert(orig.take(k as int + 1).drop_last() =~= orig.take(k as int));
            assert(orig.take(k as int + 1).last() == orig[k as int]);
            assert(num_bad_defs(orig.take(k as int + 1)) == num_bad_defs(orig.take(k as int))
                + num_bad_fields_of(orig[k as int]));
        }
        let TypeDef { name, description, kind } = td;
        let t_v: Option<Valid<Type>> = match kind {
            TypeDefKind::Object(od) => Some(to_object_type(od, description, false)),
            TypeDefKind::Interface(od) => Some(to_object_type(od, description, true)),
            TypeDefKind::Enum(vals) => Some(Ok(to_enum(vals))),
            TypeDefKind::InputObject(ivs) => Some(to_input_object(ivs)),
            TypeDefKind::Union(_) => None,
            TypeDefKind::Scalar => Some(Ok(to_scalar_type())),
        };
        match t_v {
            None => {
                proof {
                    assert(non_union_names(orig.take(k as int + 1)) =~= non_union_names(
                        orig.take(k as int),
                    ));
                    if errs is None {
                        assert forall|n: Seq<char>| #[trigger] m@.dom().contains(n) implies (
                        match last_non_union_named(orig.take(k as int + 1), n) {
                            Some(tdd) => type_matches(tdd, m@[n]),
                            None => false,
                        }) by {
                            assert(last_non_union_named(orig.take(k as int + 1), n)
                                == last_non_union_named(orig.take(k as int), n));
                        }
                    }
                }
            },
            Some(Ok(t)) => {
                let ghost m0 = m@;
                proof {
                    lemma_take_to_set_step(
                        non_union_names(orig.take(k as int + 1)),
                        non_union_names(orig.take(k as int + 1)).len() - 1,
                    );
                    assert(non_union_names(orig.take(k as int + 1)).drop_last() =~= non_union_names(
                        orig.take(k as int),
                    ));
                    assert(non_union_names(orig.take(k as int + 1)).take(
                        non_union_names(orig.take(k as int + 1)).len() as int,
                    ) =~= non_union_names(orig.take(k as int + 1)));
                    assert(non_union_names(orig.take(k as int + 1)).take(
                        non_union_names(orig.take(k as int + 1)).len() - 1,
                    ) =~= non_union_names(orig.take(k as int)));
                }
                m.insert(name, t);
                proof {
                    if errs is None {
                        assert forall|n: Seq<char>| #[trigger] m@.dom().contains(n) implies (
                        match last_non_union_named(orig.take(k as int + 1), n) {
                            Some(tdd) => type_matches(tdd, m@[n]),
                            None => false,
                        }) by {
                            if n == orig[k as int].name@ {
                                assert(last_non_union_named(orig.take(k as int + 1), n) == Some(
                                    orig[k as int],
                                ));
                            } else {
                                assert(m@[n] == m0[n]);
                                assert(last_non_union_named(orig.take(k as int + 1), n)
                                    == last_non_union_named(orig.take(k as int), n));
                            }
                        }
                        assert(m@.dom() =~= non_union_names(orig.take(k as int + 1)).to_set());
                    }
                }
            },
            Some(Err(e)) => {
                errs = join_err(errs, e.trace(name.as_str()));
            },
        }
        k += 1;
        proof {
            assert(rest@ =~= orig.skip(k as int));
        }
    }
    proof {
        assert(orig.take(k as int) =~= orig);
    }
    match errs {
        None => Ok(m),
        Some(e) => Err(e),
    }
}

/// Lowers union definitions into the name-sorted union table. This never
/// fails: members and descriptions are copied verbatim. Definitions that are
/// not unions are skipped.
pub fn to_union_types(type_definitions: Vec<TypeDef>) -> (m: NameMap<Union>)
    ensures
        unions_table_matches(type_definitions@, m),
{
    let ghost orig = type_definitions@;
    let mut rest = type_definitions;
    let mut m = NameMap::<Union>::new();
    let total = rest.len();
    proof {
        assert(orig.len() == total as int);
    }
    let mut k: usize = 0;
    while rest.len() > 0
        invariant
            orig.len() <= usize::MAX,
            k + rest@.len() == orig.len(),
            rest@ =~= orig.skip(k as int),
            m.wf(),
            m@.dom() =~= union_names(orig.take(k as int)).to_set(),
            forall|n: Seq<char>|
                #[trigger] m@.dom().contains(n) ==> (match last_union_named(
                    orig.take(k as int),
                    n,
                ) {
                    Some(td) => union_matches(td, m@[n]),
                    None => false,
                }),
        decreases rest@.len(),
    {
        let td = rest.remove(0);
        proof {
            assert(td == orig[k as int]);
            assert(orig.take(k as int + 1).drop_last() =~= orig.take(k as int));
            assert(orig.take(k as int + 1).last() == orig[k as int]);
        }
        let TypeDef { name, description, kind } = td;
        match kind {
            TypeDefKind::Union(members) => {
                let u = to_union(members, description);
                let ghost m0 = m@;
                proof {
                    lemma_take_to_set_step(
                        union_names(orig.take(k as int + 1)),
                        union_names(orig.take(k as int + 1)).len() - 1,
                    );
                    assert(union_names(orig.take(k as int + 1)).drop_last() =~= union_names(
                        orig.take(k as int),
                    ));
                    assert(union_names(orig.take(k as int + 1)).take(
                        union_names(orig.take(k as int + 1)).len() as int,
                    ) =~= union_names(orig.take(k as int + 1)));
                    assert(union_names(orig.take(k as int + 1)).take(
                        union_names(orig.take(k as int + 1)).len() - 1,
                    ) =~= union_names(orig.take(k as int)));
                }
                m.insert(name, u);
                proof {
                    assert forall|n: Seq<char>| #[trigger] m@.dom().contains(n) implies (
                    match last_union_named(orig.take(k as int + 1), n) {
                        Some(tdd) => union_matches(tdd, m@[n]),
                        None => false,
                    }) by {
                        if n == orig[k as int].name@ {
                            assert(last_union_named(orig.take(k as int + 1), n) == Some(
                                orig[k as int],
                            ));
                        } else {
                            assert(m@[n] == m0[n]);
                            assert(last_union_named(orig.take(k as int + 1), n) == last_union_named(
                                orig.take(k as int),
                                n,
                            ));
                        }
                    }
                    assert(m@.dom() =~= union_names(orig.take(k as int + 1)).to_set());
                }
            },
            _ => {
                proof {
                    assert(union_names(orig.take(k as int + 1)) =~= union_names(
                        orig.take(k as int),
                    ));
                    assert forall|n: Seq<char>| #[trigger] m@.dom().contains(n) implies (
                    match last_union_named(orig.take(k as int + 1), n) {
                        Some(tdd) => union_matches(tdd, m@[n]),
                        None => false,
                    }) by {
                        assert(last_union_named(orig.take(k as int + 1), n) == last_union_named(
                            orig.take(k as int),
                            n,
                        ));
                    }
                }
            },
        }
        k += 1;
        proof {
            assert(rest@ =~= orig.skip(k as int));
        }
    }
    proof {
        assert(orig.take(k as int) =~= orig);
    }
    m
}

// ---------------------------------------------------------------------------
// Root assembly
// ---------------------------------------------------------------------------

/// The non-union definitions, in order.
pub open spec fn non_union_defs(s: Seq<TypeDef>) -> Seq<TypeDef>
    decreases s.len(),
{
    if s.len() == 0 {
        Seq::empty()
    } else if is_union(s.last()) {
        non_union_defs(s.drop_last())
    } else {
        non_union_defs(s.drop_last()).push(s.last())
    }
}

/// The union definitions, in order.
pub open spec fn union_defs(s: Seq<TypeDef>) -> Seq<TypeDef>
    decreases s.len(),
{
    if s.len() == 0 {
        Seq::empty()
    } else if is_union(s.last()) {
        union_defs(s.drop_last()).push(s.last())
    } else {
        union_defs(s.drop_last())
    }
}

/// Lowering the non-union part of a list sees the same names, the same last
/// definition for each name, and the same failures as the whole list.
proof fn lemma_non_union_transfer(s: Seq<TypeDef>)
    ensures
        non_union_names(non_union_defs(s)) == non_union_names(s),
        forall|n: Seq<char>|
            last_non_union_named(non_union_defs(s), n) == last_non_union_named(s, n),
        types_ok(non_union_defs(s)) == types_ok(s),
        num_bad_defs(non_union_defs(s)) == num_bad_defs(s),
    decreases s.len(),
{
    if s.len() > 0 {
        lemma_non_union_transfer(s.drop_last());
        if is_union(s.last()) {
            assert(non_union_defs(s) == non_union_defs(s.drop_last()));
            assert forall|n: Seq<char>| last_non_union_named(non_union_defs(s), n)
                == last_non_union_named(s, n) by {
                assert(last_non_union_named(non_union_defs(s.drop_last()), n)
                    == last_non_union_named(s.drop_last(), n));
                assert(last_non_union_named(s, n) == last_non_union_named(s.drop_last(), n));
            }
            assert(type_ok(s.last()));
            assert forall|i: int| 0 <= i < s.len() && types_ok(s.drop_last()) implies type_ok(
                #[trigger] s[i],
            ) by {
                if i < s.len() - 1 {
                    assert(s.drop_last()[i] == s[i]);
                }
            }
            assert forall|i: int| 0 <= i < s.drop_last().len() && types_ok(s) implies type_ok(
                #[trigger] s.drop_last()[i],
            ) by {
                assert(s.drop_last()[i] == s[i]);
            }
        } else {
            let t = non_union_defs(s);
            assert(t == non_union_defs(s.drop_last()).push(s.last()));
            assert(t.drop_last() =~= non_union_defs(s.drop_last()));
            assert(t.last() == s.last());
            assert forall|n: Seq<char>| last_non_union_named(t, n) == last_non_union_named(
                s,
                n,
            ) by {
                assert(t.last() == s.last());
                assert(t.len() > 0);
                if s.last().name@ == n {
                    assert(last_non_union_named(t, n) == Some(s.last()));
                    assert(last_non_union_named(s, n) == Some(s.last()));
                } else {
                    assert(t.drop_last() == non_union_defs(s.drop_last()));
                    assert(last_non_union_named(t, n) == last_non_union_named(t.drop_last(), n));
                    assert(last_non_union_named(non_union_defs(s.drop_last()), n)
                        == last_non_union_named(s.drop_last(), n));
                    assert(last_non_union_named(s, n) == last_non_union_named(s.drop_last(), n));
                }
            }
            assert forall|i: int| 0 <= i < s.len() && types_ok(t) implies type_ok(
                #[trigger] s[i],
            ) by {
                if i < s.len() - 1 {
                    assert(s.drop_last()[i] == s[i]);
                    assert(types_ok(t.drop_last()));
                } else {
                    assert(t[t.len() - 1] == s[i]);
                }
            }
            assert forall|i: int| 0 <= i < t.len() && types_ok(s) implies type_ok(
                #[trigger] t[i],
            ) by {
                if i < t.len() - 1 {
                    assert(t.drop_last()[i] == t[i]);
                } else {
                    assert(t[i] == s.last());
                }
            }
        }
    }
}

/// The union part of a list sees the same names and the same last definition
/// for each name as the whole list.
proof fn lemma_union_transfer(s: Seq<TypeDef>)
    ensures
        union_names(union_defs(s)) == union_names(s),
        forall|n: Seq<char>| last_union_named(union_defs(s), n) == last_union_named(s, n),
    decreases s.len(),
{
    if s.len() > 0 {
        lemma_union_transfer(s.drop_last());
        if !is_union(s.last()) {
            assert(union_defs(s) == union_defs(s.drop_last()));
            assert forall|n: Seq<char>| last_union_named(union_defs(s), n) == last_union_named(
                s,
                n,
            ) by {
                assert(last_union_named(union_defs(s.drop_last()), n) == last_union_named(
                    s.drop_last(),
                    n,
                ));
                assert(last_union_named(s, n) == last_union_named(s.drop_last(), n));
            }
        }
        if is_union(s.last()) {
            let t = union_defs(s);
            assert(t == union_defs(s.drop_last()).push(s.last()));
            assert(t.drop_last() =~= union_defs(s.drop_last()));
            assert(t.last() == s.last());
            assert forall|n: Seq<char>| last_union_named(t, n) == last_union_named(s, n) by {
                assert(t.last() == s.last());
                assert(t.len() > 0);
                if s.last().name@ == n {
                    assert(last_union_named(t, n) == Some(s.last()));
                    assert(last_union_named(s, n) == Some(s.last()));
                } else {
                    assert(t.drop_last() == union_defs(s.drop_last()));
                    assert(last_union_named(t, n) == last_union_named(t.drop_last(), n));
                    assert(last_union_named(union_defs(s.drop_last()), n) == last_union_named(
                        s.drop_last(),
                        n,
                    ));
                    assert(last_union_named(s, n) == last_union_named(s.drop_last(), n));
                }
            }
        }
    }
}

/// Splits type definitions into the non-union and the union ones, keeping
/// each part's order.
fn partition_unions(defs: Vec<TypeDef>) -> (r: (Vec<TypeDef>, Vec<TypeDef>))
    ensures
        r.0@ == non_union_defs(defs@),
        r.1@ == union_defs(defs@),
{
    let ghost orig = defs@;
    let mut rest = defs;
    let mut plain: Vec<TypeDef> = Vec::new();
    let mut unions: Vec<TypeDef> = Vec::new();
    let total = rest.len();
    proof {
        assert(orig.len() == total as int);
    }
    let mut k: usize = 0;
    while rest.len() > 0
        invariant
            orig.len() <= usize::MAX,
            k + rest@.len() == orig.len(),
            rest@ =~= orig.skip(k as int),
            plain@ == non_union_defs(orig.take(k as int)),
            unions@ == union_defs(orig.take(k as int)),
        decreases rest@.len(),
    {
        let td = rest.remove(0);
        proof {
            assert(td == orig[k as int]);
            assert(orig.take(k as int + 1).drop_last() =~= orig.take(k as int));
            assert(orig.take(k as int + 1).last() == orig[k as int]);
        }
        let unionish = matches!(&td.kind, TypeDefKind::Union(_));
        if unionish {
            unions.push(td);
        } else {
            plain.push(td);
        }
        k += 1;
        proof {
            assert(rest@ =~= orig.skip(k as int));
        }
    }
    proof {
        assert(orig.take(k as int) =~= orig);
    }
    (plain, unions)
}

/// The schema definitions of a document, in order.
pub open spec fn schema_defs(s: Seq<Definition>) -> Seq<SchemaDef>
    decreases s.len(),
{
    if s.len() == 0 {
        Seq::empty()
    } else {
        match s.last() {
            Definition::Schema(sd) => schema_defs(s.drop_last()).push(sd),
            Definition::Type(_) => schema_defs(s.drop_last()),
        }
    }
}

/// The type definitions of a document, in order.
pub open spec fn type_defs(s: Seq<Definition>) -> Seq<TypeDef>
    decreases s.len(),
{
    if s.len() == 0 {
        Seq::empty()
    } else {
        match s.last() {
            Definition::Schema(_) => type_defs(s.drop_last()),
            Definition::Type(td) => type_defs(s.drop_last()).push(td),
        }
    }
}

/// Splits a document's definitions into its schema definitions and its type
/// definitions, keeping each part's order.
fn split_definitions(defs: Vec<Definition>) -> (r: (Vec<SchemaDef>, Vec<TypeDef>))
    ensures
        r.0@ == schema_defs(defs@),
        r.1@ == type_defs(defs@),
{
    let ghost orig = defs@;
    let mut rest = defs;
    let mut schemas: Vec<SchemaDef> = Vec::new();
    let mut types: Vec<TypeDef> = Vec::new();
    let total = rest.len();
    proof {
        assert(orig.len() == total as int);
    }
    let mut k: usize = 0;
    while rest.len() > 0
        invariant
            orig.len() <= usize::MAX,
            k + rest@.len() == orig.len(),
            rest@ =~= orig.skip(k as int),
            schemas@ == schema_defs(orig.take(k as int)),
            types@ == type_defs(orig.take(k as int)),
        decreases rest@.len(),
    {
        let d = rest.remove(0);
        proof {
            assert(d == orig[k as int]);
            assert(orig.take(k as int + 1).drop_last() =~= orig.take(k as int));
            assert(orig.take(k as int + 1).last() == orig[k as int]);
        }
        match d {
            Definition::Schema(sd) => {
                schemas.push(sd);
            },
            Definition::Type(td) => {
                types.push(td);
            },
        }
        k += 1;
        proof {
            assert(rest@ =~= orig.skip(k as int));
        }
    }
    proof {
        assert(orig.take(k as int) =~= orig);
    }
    (schemas, types)
}

/// Picks the schema definition the pass works with: the first one in the
/// document. A document without any is a hard failure, one diagnostic traced
/// under the `schema` label.
pub fn schema_definition(schemas: Vec<SchemaDef>) -> (r: Valid<SchemaDef>)
    ensures
        schemas@.len() > 0 ==> r == Ok::<SchemaDef, ValidationError>(schemas@[0]),
        schemas@.len() == 0 ==> {
            &&& r is Err
            &&& r->Err_0.wf()
            &&& r->Err_0.causes().len() == 1
            &&& r->Err_0.causes()[0].message@ == "schema not found"@
            &&& r->Err_0.causes()[0].path.deep_view() =~= seq!["schema"@]
        },
{
    let mut schemas = schemas;
    if schemas.len() > 0 {
        Ok(schemas.remove(0))
    } else {
        let base = ValidationError::single("schema not found".to_owned());
        let e = base.trace("schema");
        proof {
            assert(base.causes()[0].path.deep_view() =~= Seq::<Seq<char>>::empty());
            assert(e.causes()[0].path.deep_view() =~= seq!["schema"@]);
        }
        Err(e)
    }
}

/// The schema-level directive names differ in their first character.
proof fn lemma_root_names_distinct()
    ensures
        "server"@ != "upstream"@,
{
    reveal_strlit("server");
    reveal_strlit("upstream");
    assert(("server"@)[0] == 's');
    assert(("upstream"@)[0] == 'u');
}

/// Walks the schema definition's directive list once and keeps the last
/// `server` and the last `upstream` directive; other names are ignored.
fn schema_directives(dirs: Vec<Directive>) -> (r: (Option<Directive>, Option<Directive>))
    ensures
        r.0 == last_directive(dirs@, "server"@),
        r.1 == last_directive(dirs@, "upstream"@),
{
    let ghost orig = dirs@;
    let mut rest = dirs;
    let mut server_slot: Option<Directive> = None;
    let mut upstream_slot: Option<Directive> = None;
    while rest.len() > 0
        invariant
            first_of(server_slot, last_directive(rest@, "server"@)) == last_directive(
                orig,
                "server"@,
            ),
            first_of(upstream_slot, last_directive(rest@, "upstream"@)) == last_directive(
                orig,
                "upstream"@,
            ),
        decreases rest@.len(),
    {
        let ghost before = rest@;
        match rest.pop() {
            Some(d) => {
                proof {
                    assert(rest@ =~= before.drop_last());
                    lemma_root_names_distinct();
                }
                let is_server = str_eq(d.name.as_str(), "server");
                let is_upstream = str_eq(d.name.as_str(), "upstream");
                if is_server {
                    if server_slot.is_none() {
                        server_slot = Some(d);
                    }
                } else if is_upstream {
                    if upstream_slot.is_none() {
                        upstream_slot = Some(d);
                    }
                }
            },
            None => {},
        }
    }
    (server_slot, upstream_slot)
}

/// Whether the schema's `server` directive, where present, decodes.
pub open spec fn server_slot_ok(dirs: Seq<Directive>) -> bool {
    match last_directive(dirs, "server"@) {
        None => true,
        Some(d) => server_ok(d),
    }
}

/// How the serving options relate to the schema's directive list: decoded
/// from the last `server` directive, or the defaults when there is none.
pub open spec fn server_slot_matches(dirs: Seq<Directive>, s: Server) -> bool {
    match last_directive(dirs, "server"@) {
        None => s == (Server { port: None, hostname: None }),
        Some(d) => s == server_of(d),
    }
}

/// Decodes the schema's selected `server` directive; absence yields the
/// default options, not an error.
pub fn server(d: Option<Directive>) -> (r: Valid<Server>)
    ensures
        r is Ok <==> (match d {
            None => true,
            Some(dir) => server_ok(dir),
        }),
        r is Ok ==> (match d {
            None => r->Ok_0 == (Server { port: None, hostname: None }),
            Some(dir) => r->Ok_0 == server_of(dir),
        }),
        r is Err ==> r->Err_0.wf(),
{
    match d {
        None => Ok(Server::default()),
        Some(dir) => match decode_server(&dir) {
            Ok(s) => Ok(s),
            Err(e) => Err(e.trace("server")),
        },
    }
}

/// Whether the schema's `upstream` directive, where present, decodes.
pub open spec fn upstream_slot_ok(dirs: Seq<Directive>) -> bool {
    match last_directive(dirs, "upstream"@) {
        None => true,
        Some(d) => upstream_ok(d),
    }
}

/// How the outbound-call options relate to the schema's directive list.
pub open spec fn upstream_slot_matches(dirs: Seq<Directive>, u: Upstream) -> bool {
    match last_directive(dirs, "upstream"@) {
        None => u == (Upstream { base_url: None, timeout: None }),
        Some(d) => u == upstream_of(d),
    }
}

/// Decodes the schema's selected `upstream` directive; absence yields the
/// default options, not an error.
pub fn upstream(d: Option<Directive>) -> (r: Valid<Upstream>)
    ensures
        r is Ok <==> (match d {
            None => true,
            Some(dir) => upstream_ok(dir),
        }),
        r is Ok ==> (match d {
            None => r->Ok_0 == (Upstream { base_url: None, timeout: None }),
            Some(dir) => r->Ok_0 == upstream_of(dir),
        }),
        r is Err ==> r->Err_0.wf(),
{
    match d {
        None => Ok(Upstream::default()),
        Some(dir) => match decode_upstream(&dir) {
            Ok(u) => Ok(u),
            Err(e) => Err(e.trace("upstream")),
        },
    }
}

/// Builds the root schema from the declared operation type names, copied
/// verbatim; an absent name means the operation is unsupported.
pub fn to_root_schema(
    query: Option<String>,
    mutation: Option<String>,
    subscription: Option<String>,
) -> (r: RootSchema)
    ensures
        r == (RootSchema { query, mutation, subscription }),
{
    RootSchema { query, mutation, subscription }
}

/// Assembles the schema IR: the root names handed in, the type table and the
/// union table lowered from the type definitions. The root-name result and
/// the type lowering accumulate their failures; a type name never lands in
/// both tables unless the document defines it both ways.
pub fn graphql(root_v: Valid<RootSchema>, type_definitions: Vec<TypeDef>) -> (r: Valid<GraphQL>)
    requires
        root_v is Err ==> root_v->Err_0.wf(),
    ensures
        r is Ok <==> (root_v is Ok && types_ok(type_definitions@)),
        r is Ok ==> {
            &&& r->Ok_0.schema == root_v->Ok_0
            &&& types_table_matches(type_definitions@, r->Ok_0.types)
            &&& unions_table_matches(type_definitions@, r->Ok_0.unions)
        },
        r is Ok ==> num_bad_defs(type_definitions@) == 0,
        r is Err ==> r->Err_0.wf(),
        r is Err ==> r->Err_0.causes().len() >= num_bad_defs(type_definitions@),
        root_v is Err && types_ok(type_definitions@) ==> r is Err && r->Err_0.causes() == root_v->Err_0.causes(),
{
    proof {
        lemma_non_union_transfer(type_definitions@);
        lemma_union_transfer(type_definitions@);
    }
    let (plain, unions_part) = partition_unions(type_definitions);
    let unions = to_union_types(unions_part);
    let types_v = to_types(plain);
    match merge(root_v, types_v) {
        Ok(pair) => {
            let (root, types) = pair;
            Ok(GraphQL { schema: root, types, unions })
        },
        Err(e) => Err(e),
    }
}

/// Whether a whole document lowers: it has a schema definition, the schema's
/// `server` and `upstream` directives decode, and every type lowers.
pub open spec fn document_ok(doc: Document) -> bool {
    &&& schema_defs(doc.definitions@).len() > 0
    &&& server_slot_ok(schema_defs(doc.definitions@)[0].directives@)
    &&& upstream_slot_ok(schema_defs(doc.definitions@)[0].directives@)
    &&& types_ok(type_defs(doc.definitions@))
}

/// How a lowered configuration relates to its document: options from the
/// first schema definition's directives, root names copied verbatim, and the
/// two name-sorted type tables.
pub open spec fn config_matches(doc: Document, c: Config) -> bool {
    let sd = schema_defs(doc.definitions@)[0];
    &&& server_slot_matches(sd.directives@, c.server)
    &&& upstream_slot_matches(sd.directives@, c.upstream)
    &&& c.graphql.schema == (RootSchema {
        query: sd.query,
        mutation: sd.mutation,
        subscription: sd.subscription,
    })
    &&& types_table_matches(type_defs(doc.definitions@), c.graphql.types)
    &&& unions_table_matches(type_defs(doc.definitions@), c.graphql.unions)
}

/// Lowers one document to a configuration, or to the accumulated list of
/// everything found wrong with it. Failures accumulate instead of
/// short-circuiting: every field that does not lower leaves at least one
/// diagnostic of its own in the result. A document without a schema
/// definition whose types all lower yields exactly one diagnostic,
/// `schema not found`, traced under the `schema` label.
pub fn from_document(doc: Document) -> (r: Valid<Config>)
    ensures
        r is Ok <==> document_ok(doc),
        r is Ok ==> config_matches(doc, r->Ok_0),
        r is Err ==> r->Err_0.wf(),
        r is Err ==> r->Err_0.causes().len() >= num_bad_defs(type_defs(doc.definitions@)),
        schema_defs(doc.definitions@).len() == 0 && types_ok(type_defs(doc.definitions@)) ==> {
            &&& r is Err
            &&& r->Err_0.causes().len() == 1
            &&& r->Err_0.causes()[0].message@ == "schema not found"@
            &&& r->Err_0.causes()[0].path.deep_view() =~= seq!["schema"@]
        },
{
    let Document { definitions } = doc;
    let (schemas, typedefs) = split_definitions(definitions);
    let sd_v = schema_definition(schemas);
    let (su_v, root_v): (Valid<(Server, Upstream)>, Valid<RootSchema>) = match sd_v {
        Ok(sd) => {
            let SchemaDef { directives, query, mutation, subscription } = sd;
            let (sdir, udir) = schema_directives(directives);
            let sv = server(sdir);
            let uv = upstream(udir);
            let root = to_root_schema(query, mutation, subscription);
            (merge(sv, uv), Ok(root))
        },
        Err(e) => (Ok((Server::default(), Upstream::default())), Err(e)),
    };
    let g_v = graphql(root_v, typedefs);
    match merge(su_v, g_v) {
        Ok(pair) => {
            let ((srv, ups), gql) = pair;
            Ok(Config { server: srv, upstream: ups, graphql: gql })
        },
        Err(e) => Err(e),
    }
}

} // verus!
