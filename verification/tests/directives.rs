use schema_ir::ast::BaseTypeRef;
use schema_ir::ast::Definition;
use schema_ir::ast::Directive;
use schema_ir::ast::Document;
use schema_ir::ast::FieldDef;
use schema_ir::ast::ObjectTypeDef;
use schema_ir::ast::SchemaDef;
use schema_ir::ast::TypeDef;
use schema_ir::ast::TypeDefKind;
use schema_ir::ast::TypeRef;
use schema_ir::ast::InputValueDef;
use schema_ir::ast::Value;
use schema_ir::config::Config;
use schema_ir::lower::from_document;
use schema_ir::lower::to_scalar_type;

fn named(name: &str, nullable: bool) -> TypeRef {
    TypeRef { base: BaseTypeRef::Named(name.to_string()), nullable }
}

fn directive(name: &str, args: Vec<(&str, Value)>) -> Directive {
    Directive {
        name: name.to_string(),
        args: args.into_iter().map(|(n, v)| (n.to_string(), v)).collect(),
    }
}

fn field_with(name: &str, directives: Vec<Directive>) -> FieldDef {
    FieldDef {
        name: name.to_string(),
        description: None,
        ty: named("String", true),
        arguments: Vec::new(),
        directives,
    }
}

fn doc_with_schema_directives(directives: Vec<Directive>) -> Document {
    Document {
        definitions: vec![Definition::Schema(SchemaDef {
            directives,
            query: Some("Query".to_string()),
            mutation: None,
            subscription: None,
        })],
    }
}

fn doc_with_field(f: FieldDef) -> Document {
    Document {
        definitions: vec![
            Definition::Schema(SchemaDef {
                directives: Vec::new(),
                query: Some("Query".to_string()),
                mutation: None,
                subscription: None,
            }),
            Definition::Type(TypeDef {
                name: "Query".to_string(),
                description: None,
                kind: TypeDefKind::Object(ObjectTypeDef {
                    fields: vec![f],
                    implements: Vec::new(),
                }),
            }),
        ],
    }
}

fn lower(d: Document) -> Config {
    match from_document(d) {
        Ok(c) => c,
        Err(_) => panic!("expected the document to lower"),
    }
}

#[test]
fn server_directive_decodes_port_and_hostname() {
    let d = doc_with_schema_directives(vec![directive(
        "server",
        vec![
            ("port", Value::Num(8080)),
            ("hostname", Value::Str("0.0.0.0".to_string())),
        ],
    )]);
    let c = lower(d);
    assert_eq!(c.server.port, Some(8080));
    assert_eq!(c.server.hostname.as_deref(), Some("0.0.0.0"));
}

#[test]
fn absent_server_and_upstream_yield_defaults() {
    let c = lower(doc_with_schema_directives(vec![]));
    assert_eq!(c.server.port, None);
    assert_eq!(c.server.hostname, None);
    assert_eq!(c.upstream.base_url, None);
    assert_eq!(c.upstream.timeout, None);
}

#[test]
fn server_port_out_of_range_is_an_error() {
    let d = doc_with_schema_directives(vec![directive("server", vec![("port", Value::Num(70000))])]);
    let e = from_document(d).err().expect("a bad port must fail");
    assert_eq!(e.len(), 1);
    assert_eq!(e.cause_at(0).path, vec!["server".to_string()]);
}

#[test]
fn upstream_directive_decodes() {
    let d = doc_with_schema_directives(vec![directive(
        "upstream",
        vec![
            ("baseURL", Value::Str("http://localhost:3000".to_string())),
            ("timeout", Value::Num(30)),
        ],
    )]);
    let c = lower(d);
    assert_eq!(c.upstream.base_url.as_deref(), Some("http://localhost:3000"));
    assert_eq!(c.upstream.timeout, Some(30));
}

#[test]
fn last_schema_directive_wins() {
    let d = doc_with_schema_directives(vec![
        directive("server", vec![("port", Value::Num(1))]),
        directive("server", vec![("port", Value::Num(2))]),
    ]);
    let c = lower(d);
    assert_eq!(c.server.port, Some(2));
}

#[test]
fn http_directive_decodes_fully() {
    let f = field_with(
        "users",
        vec![directive(
            "http",
            vec![
                ("path", Value::Str("/users".to_string())),
                ("method", Value::Str("POST".to_string())),
                ("baseURL", Value::Str("http://api".to_string())),
                ("body", Value::Str("{}".to_string())),
            ],
        )],
    );
    let c = lower(doc_with_field(f));
    let q = c.graphql.types.get("Query").unwrap();
    let http = q.fields.get("users").unwrap().http.as_ref().unwrap();
    assert_eq!(http.path, "/users");
    assert_eq!(http.method.as_deref(), Some("POST"));
    assert_eq!(http.base_url.as_deref(), Some("http://api"));
    assert_eq!(http.body.as_deref(), Some("{}"));
}

#[test]
fn http_without_path_fails_with_field_trace() {
    let f = field_with("users", vec![directive("http", vec![])]);
    let e = from_document(doc_with_field(f)).err().expect("http without path must fail");
    assert_eq!(e.len(), 1);
    assert_eq!(e.cause_at(0).path, vec!["Query", "users", "http"]);
}

#[test]
fn last_http_directive_wins_even_if_earlier_is_malformed() {
    let f = field_with(
        "users",
        vec![
            directive("http", vec![]),
            directive("http", vec![("path", Value::Str("/ok".to_string()))]),
        ],
    );
    let c = lower(doc_with_field(f));
    let q = c.graphql.types.get("Query").unwrap();
    let http = q.fields.get("users").unwrap().http.as_ref().unwrap();
    assert_eq!(http.path, "/ok");
    assert_eq!(http.method, None);
}

#[test]
fn modify_directive_decodes() {
    let f = field_with(
        "old",
        vec![directive(
            "modify",
            vec![("name", Value::Str("new".to_string())), ("omit", Value::Bool(true))],
        )],
    );
    let c = lower(doc_with_field(f));
    let q = c.graphql.types.get("Query").unwrap();
    let m = q.fields.get("old").unwrap().modify.as_ref().unwrap();
    assert_eq!(m.name.as_deref(), Some("new"));
    assert_eq!(m.omit, Some(true));
}

#[test]
fn inline_directive_needs_a_string_list() {
    let f = field_with(
        "deep",
        vec![directive(
            "inline",
            vec![(
                "path",
                Value::List(vec![Value::Str("a".to_string()), Value::Str("b".to_string())]),
            )],
        )],
    );
    let c = lower(doc_with_field(f));
    let q = c.graphql.types.get("Query").unwrap();
    let i = q.fields.get("deep").unwrap().inline.as_ref().unwrap();
    assert_eq!(i.path, vec!["a".to_string(), "b".to_string()]);

    let bad = field_with("deep", vec![directive("inline", vec![("path", Value::Num(1))])]);
    let e = from_document(doc_with_field(bad)).err().expect("a non-list path must fail");
    assert_eq!(e.cause_at(0).path, vec!["Query", "deep", "inline"]);
}

#[test]
fn group_by_path_defaults_to_empty() {
    let f = field_with("batched", vec![directive("groupBy", vec![])]);
    let c = lower(doc_with_field(f));
    let q = c.graphql.types.get("Query").unwrap();
    let g = q.fields.get("batched").unwrap().group_by.as_ref().unwrap();
    assert!(g.path.is_empty());
}

#[test]
fn unsafe_directive_is_a_bare_marker() {
    let f = field_with("danger", vec![directive("unsafe", vec![])]);
    let c = lower(doc_with_field(f));
    let q = c.graphql.types.get("Query").unwrap();
    assert!(q.fields.get("danger").unwrap().unsafe_operation.is_some());

    let bad = field_with("danger", vec![directive("unsafe", vec![("x", Value::Num(1))])]);
    let e = from_document(doc_with_field(bad)).err().expect("arguments must be refused");
    assert_eq!(e.cause_at(0).path, vec!["Query", "danger", "unsafe"]);
}

#[test]
fn const_directive_carries_its_value() {
    let f = field_with(
        "fixed",
        vec![directive(
            "const",
            vec![("data", Value::Object(vec![("a".to_string(), Value::Num(1))]))],
        )],
    );
    let c = lower(doc_with_field(f));
    let q = c.graphql.types.get("Query").unwrap();
    let k = q.fields.get("fixed").unwrap().const_field.as_ref().unwrap();
    match &k.data {
        Value::Object(pairs) => {
            assert_eq!(pairs.len(), 1);
            assert_eq!(pairs[0].0, "a");
            assert!(matches!(pairs[0].1, Value::Num(1)));
        }
        _ => panic!("the constant should be the object handed in"),
    }
}

#[test]
fn unknown_directives_are_ignored() {
    let f = field_with("plain", vec![directive("deprecated", vec![])]);
    let c = lower(doc_with_field(f));
    let q = c.graphql.types.get("Query").unwrap();
    let pf = q.fields.get("plain").unwrap();
    assert!(pf.http.is_none());
    assert!(pf.modify.is_none());
}

#[test]
fn scalar_marker_type() {
    let t = to_scalar_type();
    assert!(t.scalar);
    assert!(!t.interface);
    assert!(t.variants.is_none());
    assert_eq!(t.fields.len(), 0);
    assert_eq!(t.implements.len(), 0);
    assert!(t.doc.is_none());
}

#[test]
fn errors_from_several_directives_accumulate_on_one_field() {
    let f = field_with(
        "messy",
        vec![
            directive("http", vec![]),
            directive("modify", vec![("omit", Value::Num(3))]),
        ],
    );
    let e = from_document(doc_with_field(f)).err().expect("both directives must fail");
    assert_eq!(e.len(), 2);
    assert_eq!(e.cause_at(0).path, vec!["Query", "messy", "modify"]);
    assert_eq!(e.cause_at(1).path, vec!["Query", "messy", "http"]);
}

#[test]
fn upstream_negative_timeout_is_an_error() {
    let d = doc_with_schema_directives(vec![directive(
        "upstream",
        vec![("timeout", Value::Num(-5))],
    )]);
    let e = from_document(d).err().expect("a negative timeout must fail");
    assert_eq!(e.cause_at(0).path, vec!["upstream".to_string()]);
}

#[test]
fn modify_on_an_argument_decodes_and_errors_trace_the_argument() {
    let good_arg = InputValueDef {
        name: "id".to_string(),
        description: None,
        ty: named("ID", false),
        directives: vec![directive("modify", vec![("name", Value::Str("ident".to_string()))])],
        default_value: None,
    };
    let mut f = field_with("item", vec![]);
    f.arguments.push(good_arg);
    let c = lower(doc_with_field(f));
    let q = c.graphql.types.get("Query").unwrap();
    let a = q.fields.get("item").unwrap().args.get("id").unwrap();
    assert_eq!(a.modify.as_ref().unwrap().name.as_deref(), Some("ident"));

    let bad_arg = InputValueDef {
        name: "id".to_string(),
        description: None,
        ty: named("ID", false),
        directives: vec![directive("modify", vec![("name", Value::Num(1))])],
        default_value: None,
    };
    let mut f2 = field_with("item", vec![]);
    f2.arguments.push(bad_arg);
    let e = from_document(doc_with_field(f2)).err().expect("a bad modify must fail");
    assert_eq!(e.cause_at(0).path, vec!["Query", "item", "id", "modify"]);
}

#[test]
fn argument_tables_are_name_sorted_with_last_duplicate_winning() {
    let mk = |name: &str, nullable: bool| InputValueDef {
        name: name.to_string(),
        description: None,
        ty: named("Int", nullable),
        directives: Vec::new(),
        default_value: None,
    };
    let mut f = field_with("q", vec![]);
    f.arguments.push(mk("zeta", true));
    f.arguments.push(mk("alpha", true));
    f.arguments.push(mk("zeta", false));
    let c = lower(doc_with_field(f));
    let q = c.graphql.types.get("Query").unwrap();
    let args = &q.fields.get("q").unwrap().args;
    assert_eq!(args.len(), 2);
    assert_eq!(args.key_at(0).as_str(), "alpha");
    assert_eq!(args.key_at(1).as_str(), "zeta");
    assert!(args.get("zeta").unwrap().required);
}

#[test]
fn group_by_path_must_be_a_list_of_strings() {
    let f = field_with("batched", vec![directive("groupBy", vec![("path", Value::Num(1))])]);
    let e = from_document(doc_with_field(f)).err().expect("a non-list path must fail");
    assert_eq!(e.cause_at(0).path, vec!["Query", "batched", "groupBy"]);
}

#[test]
fn const_without_data_is_an_error() {
    let f = field_with("fixed", vec![directive("const", vec![])]);
    let e = from_document(doc_with_field(f)).err().expect("const needs data");
    assert_eq!(e.len(), 1);
    assert_eq!(e.cause_at(0).path, vec!["Query", "fixed", "const"]);
}
