use schema_ir::ast::BaseTypeRef;
use schema_ir::ast::Definition;
use schema_ir::ast::Directive;
use schema_ir::ast::Document;
use schema_ir::ast::FieldDef;
use schema_ir::ast::InputValueDef;
use schema_ir::ast::ObjectTypeDef;
use schema_ir::ast::SchemaDef;
use schema_ir::ast::TypeDef;
use schema_ir::ast::TypeDefKind;
use schema_ir::ast::TypeRef;
use schema_ir::ast::Value;
use schema_ir::config::Config;
use schema_ir::lower::from_document;

fn named(name: &str, nullable: bool) -> TypeRef {
    TypeRef { base: BaseTypeRef::Named(name.to_string()), nullable }
}

fn list_of(inner: TypeRef, nullable: bool) -> TypeRef {
    TypeRef { base: BaseTypeRef::List(Box::new(inner)), nullable }
}

fn field(name: &str, ty: TypeRef) -> FieldDef {
    FieldDef {
        name: name.to_string(),
        description: None,
        ty,
        arguments: Vec::new(),
        directives: Vec::new(),
    }
}

fn object_def(name: &str, fields: Vec<FieldDef>) -> TypeDef {
    TypeDef {
        name: name.to_string(),
        description: None,
        kind: TypeDefKind::Object(ObjectTypeDef { fields, implements: Vec::new() }),
    }
}

fn schema_def() -> Definition {
    Definition::Schema(SchemaDef {
        directives: Vec::new(),
        query: Some("Query".to_string()),
        mutation: None,
        subscription: None,
    })
}

fn doc(definitions: Vec<Definition>) -> Document {
    Document { definitions }
}

fn lower_ok(definitions: Vec<Definition>) -> Config {
    match from_document(doc(definitions)) {
        Ok(c) => c,
        Err(e) => {
            let mut msgs = Vec::new();
            for i in 0..e.len() {
                msgs.push(e.cause_at(i).message.clone());
            }
            panic!("expected success, got errors: {:?}", msgs)
        }
    }
}

#[test]
fn root_schema_round_trip() {
    let d = doc(vec![Definition::Schema(SchemaDef {
        directives: Vec::new(),
        query: Some("Query".to_string()),
        mutation: Some("Mutation".to_string()),
        subscription: None,
    })]);
    let c = match from_document(d) {
        Ok(c) => c,
        Err(_) => panic!("lowering should succeed"),
    };
    assert_eq!(c.graphql.schema.query.as_deref(), Some("Query"));
    assert_eq!(c.graphql.schema.mutation.as_deref(), Some("Mutation"));
    assert!(c.graphql.schema.subscription.is_none());
}

#[test]
fn missing_schema_is_fatal() {
    let d = doc(vec![Definition::Type(object_def(
        "Query",
        vec![field("name", named("String", true))],
    ))]);
    let e = from_document(d).err().expect("a document without a schema must fail");
    assert_eq!(e.len(), 1);
    assert_eq!(e.cause_at(0).message, "schema not found");
    assert_eq!(e.cause_at(0).path, vec!["schema".to_string()]);
}

#[test]
fn type_table_is_name_sorted_and_total() {
    let c = lower_ok(vec![
        schema_def(),
        Definition::Type(object_def("Zeta", vec![])),
        Definition::Type(TypeDef {
            name: "Alpha".to_string(),
            description: None,
            kind: TypeDefKind::Scalar,
        }),
        Definition::Type(TypeDef {
            name: "Mu".to_string(),
            description: None,
            kind: TypeDefKind::Enum(vec!["A".to_string(), "B".to_string()]),
        }),
    ]);
    let types = &c.graphql.types;
    assert_eq!(types.len(), 3);
    assert_eq!(types.key_at(0).as_str(), "Alpha");
    assert_eq!(types.key_at(1).as_str(), "Mu");
    assert_eq!(types.key_at(2).as_str(), "Zeta");
    assert!(types.get("Alpha").unwrap().scalar);
    assert_eq!(
        types.get("Mu").unwrap().variants,
        Some(vec!["A".to_string(), "B".to_string()])
    );
    assert!(!types.get("Zeta").unwrap().interface);
}

#[test]
fn union_separation() {
    let c = lower_ok(vec![
        schema_def(),
        Definition::Type(object_def("Thing", vec![])),
        Definition::Type(TypeDef {
            name: "Either".to_string(),
            description: Some("one of two".to_string()),
            kind: TypeDefKind::Union(vec!["Thing".to_string(), "Other".to_string()]),
        }),
    ]);
    assert!(c.graphql.types.get("Thing").is_some());
    assert!(c.graphql.types.get("Either").is_none());
    assert!(c.graphql.unions.get("Thing").is_none());
    let u = c.graphql.unions.get("Either").unwrap();
    assert_eq!(u.types, vec!["Thing".to_string(), "Other".to_string()]);
    assert_eq!(u.doc.as_deref(), Some("one of two"));
}

#[test]
fn nullability_and_listness_are_orthogonal() {
    let c = lower_ok(vec![
        schema_def(),
        Definition::Type(object_def(
            "Query",
            vec![
                field("strict", list_of(named("String", false), false)),
                field("loose", list_of(named("String", true), true)),
                field("plain", named("Int", false)),
            ],
        )),
    ]);
    let q = c.graphql.types.get("Query").unwrap();
    let strict = q.fields.get("strict").unwrap();
    assert_eq!(strict.type_of, "String");
    assert!(strict.list);
    assert!(strict.required);
    assert!(strict.list_type_required);
    let loose = q.fields.get("loose").unwrap();
    assert_eq!(loose.type_of, "String");
    assert!(loose.list);
    assert!(!loose.required);
    assert!(!loose.list_type_required);
    let plain = q.fields.get("plain").unwrap();
    assert_eq!(plain.type_of, "Int");
    assert!(!plain.list);
    assert!(plain.required);
    assert!(!plain.list_type_required);
}

#[test]
fn list_of_list_falls_back_to_empty_name() {
    let c = lower_ok(vec![
        schema_def(),
        Definition::Type(object_def(
            "Query",
            vec![field("matrix", list_of(list_of(named("Int", true), true), true))],
        )),
    ]);
    let f = c.graphql.types.get("Query").unwrap().fields.get("matrix").unwrap();
    assert_eq!(f.type_of, "");
    assert!(f.list);
}

#[test]
fn directive_absence_is_non_fatal() {
    let c = lower_ok(vec![
        schema_def(),
        Definition::Type(object_def("Query", vec![field("bare", named("String", true))])),
    ]);
    let f = c.graphql.types.get("Query").unwrap().fields.get("bare").unwrap();
    assert!(f.modify.is_none());
    assert!(f.inline.is_none());
    assert!(f.http.is_none());
    assert!(f.unsafe_operation.is_none());
    assert!(f.group_by.is_none());
    assert!(f.const_field.is_none());
}

#[test]
fn two_malformed_http_directives_accumulate() {
    let bad_http = Directive { name: "http".to_string(), args: Vec::new() };
    let mut f1 = field("a", named("String", true));
    f1.directives.push(bad_http);
    let bad_http2 = Directive {
        name: "http".to_string(),
        args: vec![("path".to_string(), Value::Num(7))],
    };
    let mut f2 = field("b", named("String", true));
    f2.directives.push(bad_http2);
    let d = doc(vec![schema_def(), Definition::Type(object_def("Query", vec![f1, f2]))]);
    let e = from_document(d).err().expect("both fields must fail");
    assert_eq!(e.len(), 2);
    assert_eq!(e.cause_at(0).path, vec!["Query", "a", "http"]);
    assert_eq!(e.cause_at(1).path, vec!["Query", "b", "http"]);
}

#[test]
fn duplicate_type_names_last_wins() {
    let c = lower_ok(vec![
        schema_def(),
        Definition::Type(TypeDef {
            name: "Thing".to_string(),
            description: None,
            kind: TypeDefKind::Scalar,
        }),
        Definition::Type(TypeDef {
            name: "Thing".to_string(),
            description: None,
            kind: TypeDefKind::Enum(vec!["ONLY".to_string()]),
        }),
    ]);
    assert_eq!(c.graphql.types.len(), 1);
    let t = c.graphql.types.get("Thing").unwrap();
    assert!(!t.scalar);
    assert_eq!(t.variants, Some(vec!["ONLY".to_string()]));
}

#[test]
fn interface_and_implements() {
    let mut td = object_def("Named", vec![field("name", named("String", false))]);
    td.kind = TypeDefKind::Interface(ObjectTypeDef {
        fields: vec![field("name", named("String", false))],
        implements: Vec::new(),
    });
    let obj = TypeDef {
        name: "User".to_string(),
        description: Some("a user".to_string()),
        kind: TypeDefKind::Object(ObjectTypeDef {
            fields: vec![field("name", named("String", false))],
            implements: vec!["Named".to_string()],
        }),
    };
    let c = lower_ok(vec![schema_def(), Definition::Type(td), Definition::Type(obj)]);
    let iface = c.graphql.types.get("Named").unwrap();
    assert!(iface.interface);
    let user = c.graphql.types.get("User").unwrap();
    assert!(!user.interface);
    assert_eq!(user.doc.as_deref(), Some("a user"));
    assert!(user.implements.contains("Named"));
    assert!(!user.implements.contains("Other"));
    assert_eq!(user.implements.len(), 1);
}

#[test]
fn input_object_fields_have_no_arguments() {
    let ivd = InputValueDef {
        name: "width".to_string(),
        description: Some("how wide".to_string()),
        ty: named("Int", false),
        directives: Vec::new(),
        default_value: Some(Value::Num(3)),
    };
    let c = lower_ok(vec![
        schema_def(),
        Definition::Type(TypeDef {
            name: "Box".to_string(),
            description: None,
            kind: TypeDefKind::InputObject(vec![ivd]),
        }),
    ]);
    let t = c.graphql.types.get("Box").unwrap();
    let f = t.fields.get("width").unwrap();
    assert_eq!(f.type_of, "Int");
    assert!(f.required);
    assert_eq!(f.args.len(), 0);
    assert_eq!(f.doc.as_deref(), Some("how wide"));
}

#[test]
fn field_arguments_carry_defaults_and_docs() {
    let arg = InputValueDef {
        name: "limit".to_string(),
        description: Some("at most".to_string()),
        ty: named("Int", true),
        directives: Vec::new(),
        default_value: Some(Value::Num(10)),
    };
    let mut f = field("items", list_of(named("Item", true), true));
    f.arguments.push(arg);
    let c = lower_ok(vec![schema_def(), Definition::Type(object_def("Query", vec![f]))]);
    let q = c.graphql.types.get("Query").unwrap();
    let items = q.fields.get("items").unwrap();
    let limit = items.args.get("limit").unwrap();
    assert_eq!(limit.type_of, "Int");
    assert!(!limit.required);
    assert!(!limit.list);
    assert_eq!(limit.doc.as_deref(), Some("at most"));
    assert!(matches!(limit.default_value, Some(Value::Num(10))));
}
