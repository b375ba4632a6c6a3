use activity_vocabulary::bindings::{compile_schema, BindingTable};
use activity_vocabulary::codec::{decode, decode_exact, encode};
use activity_vocabulary::error::DecodeError;
use activity_vocabulary::json::Json;
use activity_vocabulary::schema::{
    PreferredPropertyName, PropertyDef, PropertyKind, Schema, TypeDef,
};
use activity_vocabulary::values::{FieldValue, ObjectValue, Slot, Value};

fn s(t: &str) -> String {
    t.to_string()
}

fn simple(ty: &str, kind: PropertyKind, aka: &[&str]) -> PropertyDef {
    PropertyDef::Simple {
        tag: None,
        property_type: s(ty),
        aka: aka.iter().map(|a| s(a)).collect(),
        uri: s("https://ex.org/ns#p"),
        doc: s(""),
        kind,
    }
}

fn vocabulary() -> Schema {
    let thing = TypeDef {
        uri: s("https://ex.org/ns#Thing"),
        extends: vec![],
        properties: vec![
            (s("id"), simple("Url", PropertyKind::Functional, &[])),
            (s("summary"), simple("String", PropertyKind::Normal, &["summaryAlias"])),
            (
                s("content"),
                PropertyDef::LangContainer {
                    tag: None,
                    property_type: s("String"),
                    container_tag: s("contentMap"),
                    aka: vec![],
                    container_aka: vec![],
                    uri: s("https://ex.org/ns#content"),
                    doc: s(""),
                    kind: PropertyKind::Normal,
                },
            ),
            (s("val"), simple("Or<Any,String>", PropertyKind::Functional, &[])),
            (s("rel"), simple("Remotable<Thing>", PropertyKind::Functional, &[])),
            (s("published"), simple("DateTime", PropertyKind::Functional, &[])),
        ],
        preferred_property_name: vec![],
        except_properties: vec![],
        doc: s(""),
    };
    let person = TypeDef {
        uri: s("https://ex.org/ns#Person"),
        extends: vec![s("Thing")],
        properties: vec![(s("age"), simple("Int", PropertyKind::Functional, &[]))],
        preferred_property_name: vec![],
        except_properties: vec![],
        doc: s(""),
    };
    let tagged = TypeDef {
        uri: s("https://ex.org/ns#Tagged"),
        extends: vec![],
        properties: vec![(s("id"), simple("String", PropertyKind::Required, &[]))],
        preferred_property_name: vec![],
        except_properties: vec![],
        doc: s(""),
    };
    let renamed = TypeDef {
        uri: s("https://ex.org/ns#Renamed"),
        extends: vec![s("Thing")],
        properties: vec![],
        preferred_property_name: vec![(s("summary"), PreferredPropertyName::Simple(s("label")))],
        except_properties: vec![s("val")],
        doc: s(""),
    };
    Schema {
        types: vec![
            (s("Thing"), thing),
            (s("Person"), person),
            (s("Tagged"), tagged),
            (s("Renamed"), renamed),
        ],
    }
}

fn table() -> BindingTable {
    compile_schema(&vocabulary()).unwrap()
}

fn obj(entries: Vec<(&str, Json)>) -> Json {
    Json::Obj(entries.into_iter().map(|(k, v)| (s(k), v)).collect())
}

fn field<'a>(tbl: &BindingTable, o: &'a ObjectValue, prop: &str) -> &'a FieldValue {
    let b = tbl.types.iter().find(|b| b.name == o.name).unwrap();
    let i = b.props.iter().position(|p| p.name == prop).unwrap();
    &o.fields[i]
}

fn entry<'a>(j: &'a Json, key: &str) -> Option<&'a Json> {
    match j {
        Json::Obj(es) => es.iter().find(|(k, _)| k == key).map(|(_, v)| v),
        _ => None,
    }
}

#[test]
fn normal_cardinality_shapes() {
    let tbl = table();
    let base = s("Thing");
    // Zero values: the key is omitted.
    let v0 = decode(&tbl, &base, &obj(vec![])).unwrap();
    let e0 = encode(&tbl, &v0);
    assert!(entry(&e0, "summary").is_none());
    // One value: a bare scalar.
    let v1 = decode(&tbl, &base, &obj(vec![("summary", Json::Str(s("a")))])).unwrap();
    let e1 = encode(&tbl, &v1);
    assert_eq!(entry(&e1, "summary"), Some(&Json::Str(s("a"))));
    // Two values: an array.
    let v2 = decode(
        &tbl,
        &base,
        &obj(vec![("summary", Json::Arr(vec![Json::Str(s("a")), Json::Str(s("b"))]))]),
    )
    .unwrap();
    let e2 = encode(&tbl, &v2);
    assert_eq!(
        entry(&e2, "summary"),
        Some(&Json::Arr(vec![Json::Str(s("a")), Json::Str(s("b"))]))
    );
}

#[test]
fn duplicate_normal_keys_merge() {
    let tbl = table();
    let v = decode(
        &tbl,
        &s("Thing"),
        &obj(vec![("summary", Json::Str(s("a"))), ("summary", Json::Str(s("b")))]),
    )
    .unwrap();
    match field(&tbl, &v, "summary") {
        FieldValue::Simple(Slot::Many(vs)) => {
            assert_eq!(vs, &vec![Value::Text(s("a")), Value::Text(s("b"))]);
        }
        _ => panic!("expected a sequence"),
    }
}

#[test]
fn duplicate_required_key_is_fatal() {
    let tbl = table();
    let r = decode_exact(
        &tbl,
        &s("Tagged"),
        &obj(vec![("id", Json::Str(s("x"))), ("id", Json::Str(s("y")))]),
    );
    assert_eq!(r.unwrap_err(), DecodeError::DuplicateField(s("id")));
}

#[test]
fn missing_required_key_is_fatal() {
    let tbl = table();
    let r = decode_exact(&tbl, &s("Tagged"), &obj(vec![]));
    assert_eq!(r.unwrap_err(), DecodeError::MissingRequiredField(s("id")));
}

#[test]
fn dispatching_decode_wraps_base_failures() {
    // Through the subtype envelope, a failing base decode is reported as
    // an unknown discriminant naming the expected set — here with no
    // discriminant present at all.
    let tbl = table();
    let r = decode(&tbl, &s("Tagged"), &obj(vec![]));
    assert_eq!(
        r.unwrap_err(),
        DecodeError::UnknownDiscriminant(s(""), vec![s("Tagged")])
    );
}

#[test]
fn aliases_decode_identically() {
    let tbl = table();
    let a = decode(&tbl, &s("Thing"), &obj(vec![("summary", Json::Str(s("x")))])).unwrap();
    let b = decode(&tbl, &s("Thing"), &obj(vec![("summaryAlias", Json::Str(s("x")))])).unwrap();
    assert_eq!(a, b);
}

#[test]
fn either_of_prefers_the_first_side() {
    let tbl = table();
    // A bare string fits both sides of `Or<Any, String>`: the first wins.
    let v = decode(&tbl, &s("Thing"), &obj(vec![("val", Json::Str(s("x")))])).unwrap();
    match field(&tbl, &v, "val") {
        FieldValue::Simple(Slot::Opt(Some(Value::Prim(inner)))) => {
            assert_eq!(**inner, Value::Json(Json::Str(s("x"))));
        }
        other => panic!("expected the first side, got {:?}", other),
    }
}

#[test]
fn reference_and_inline_resolution() {
    let tbl = table();
    // A bare identifier string is a reference.
    let v = decode(
        &tbl,
        &s("Thing"),
        &obj(vec![("rel", Json::Str(s("https://ex.org/1")))]),
    )
    .unwrap();
    match field(&tbl, &v, "rel") {
        FieldValue::Simple(Slot::Opt(Some(Value::Ref(u)))) => {
            assert_eq!(u, "https://ex.org/1");
        }
        other => panic!("expected a reference, got {:?}", other),
    }
    // A full object is inlined, its own identifier kept.
    let v = decode(
        &tbl,
        &s("Thing"),
        &obj(vec![("rel", obj(vec![("id", Json::Str(s("https://ex.org/1")))]))]),
    )
    .unwrap();
    match field(&tbl, &v, "rel") {
        FieldValue::Simple(Slot::Opt(Some(Value::Inline(inner)))) => match &**inner {
            Value::Object(o) => match field(&tbl, o, "id") {
                FieldValue::Simple(Slot::Opt(Some(Value::Id(u)))) => {
                    assert_eq!(u, "https://ex.org/1");
                }
                other => panic!("expected an identifier, got {:?}", other),
            },
            other => panic!("expected an object, got {:?}", other),
        },
        other => panic!("expected an inlined object, got {:?}", other),
    }
}

#[test]
fn polymorphic_dispatch() {
    let tbl = table();
    let base = s("Thing");
    let v = decode(&tbl, &base, &obj(vec![("type", Json::Str(s("Person")))])).unwrap();
    assert_eq!(v.name, "Person");
    let v = decode(&tbl, &base, &obj(vec![("type", Json::Str(s("Unknown")))])).unwrap();
    assert_eq!(v.name, "Thing");
    let v = decode(&tbl, &base, &obj(vec![])).unwrap();
    assert_eq!(v.name, "Thing");
}

#[test]
fn language_container_halves() {
    let tbl = table();
    let v = decode(
        &tbl,
        &s("Thing"),
        &obj(vec![
            ("content", Json::Str(s("plain"))),
            (
                "contentMap",
                obj(vec![("en", Json::Str(s("hi"))), ("fr", Json::Str(s("salut")))]),
            ),
        ]),
    )
    .unwrap();
    match field(&tbl, &v, "content") {
        FieldValue::Lang(lv) => {
            assert!(matches!(&lv.default, Slot::Many(vs) if vs.len() == 1));
            assert_eq!(lv.per_lang.len(), 2);
        }
        other => panic!("expected a language container, got {:?}", other),
    }
    let e = encode(&tbl, &v);
    assert_eq!(entry(&e, "content"), Some(&Json::Str(s("plain"))));
    assert!(entry(&e, "contentMap").is_some());
}

#[test]
fn preferred_name_renames_and_keeps_the_old_key() {
    let tbl = table();
    let base = s("Renamed");
    let a = decode(&tbl, &base, &obj(vec![("label", Json::Str(s("x")))])).unwrap();
    let b = decode(&tbl, &base, &obj(vec![("summary", Json::Str(s("x")))])).unwrap();
    assert_eq!(a, b);
    let e = encode(&tbl, &a);
    assert!(entry(&e, "label").is_some());
    assert!(entry(&e, "summary").is_none());
}

#[test]
fn excepted_properties_are_suppressed() {
    let tbl = table();
    // `Renamed` suppresses `val` even though `Thing` declares it.
    let b = tbl.types.iter().find(|b| b.name == "Renamed").unwrap();
    assert!(b.props.iter().all(|p| p.name != "val"));
    assert!(b.props.iter().any(|p| p.name == "summary"));
}

#[test]
fn decode_then_encode_then_decode_is_stable() {
    let tbl = table();
    let base = s("Thing");
    let doc = obj(vec![
        ("type", Json::Str(s("Person"))),
        ("id", Json::Str(s("https://ex.org/people/1"))),
        ("summary", Json::Arr(vec![Json::Str(s("a")), Json::Str(s("b"))])),
        ("contentMap", obj(vec![("en", Json::Str(s("hi")))])),
        ("published", Json::Str(s("2015-01-25T12:34:56Z"))),
        ("age", Json::Int(41)),
    ]);
    let v = decode(&tbl, &base, &doc).unwrap();
    let e = encode(&tbl, &v);
    let v2 = decode(&tbl, &base, &e).unwrap();
    assert_eq!(v, v2);
}

#[test]
fn identifiers_are_normalized_on_decode() {
    let tbl = table();
    let v = decode(
        &tbl,
        &s("Thing"),
        &obj(vec![("id", Json::Str(s("HTTPS://EX.ORG/People/1")))]),
    )
    .unwrap();
    match field(&tbl, &v, "id") {
        FieldValue::Simple(Slot::Opt(Some(Value::Id(u)))) => {
            assert_eq!(u, "https://ex.org/People/1");
        }
        other => panic!("expected an identifier, got {:?}", other),
    }
}

#[test]
fn unknown_keys_are_ignored() {
    let tbl = table();
    let v = decode(
        &tbl,
        &s("Thing"),
        &obj(vec![("somethingElse", Json::Int(1)), ("summary", Json::Str(s("a")))]),
    );
    assert!(v.is_ok());
}

#[test]
fn unknown_supertype_is_reported() {
    let mut schema = vocabulary();
    schema.types[1].1.extends = vec![s("Missing")];
    let r = compile_schema(&schema);
    assert_eq!(
        r.unwrap_err(),
        activity_vocabulary::error::SchemaError::UnknownSupertype(s("Missing"))
    );
}

#[test]
fn kind_mismatch_is_reported() {
    let mut schema = vocabulary();
    // A simple override on a language-container property.
    schema.types[0].1.preferred_property_name =
        vec![(s("content"), PreferredPropertyName::Simple(s("body")))];
    let r = compile_schema(&schema);
    assert_eq!(
        r.unwrap_err(),
        activity_vocabulary::error::SchemaError::KindMismatch(s("content"))
    );
}

#[test]
fn cyclic_inheritance_is_reported() {
    let mut schema = vocabulary();
    schema.types[0].1.extends = vec![s("Person")];
    let r = compile_schema(&schema);
    assert!(matches!(
        r.unwrap_err(),
        activity_vocabulary::error::SchemaError::CyclicInheritance(_)
    ));
}

#[test]
fn subtype_closure_is_transitive() {
    let mut schema = vocabulary();
    schema.types.push((
        s("Employee"),
        TypeDef {
            uri: s("https://ex.org/ns#Employee"),
            extends: vec![s("Person")],
            properties: vec![],
            preferred_property_name: vec![],
            except_properties: vec![],
            doc: s(""),
        },
    ));
    let tbl = compile_schema(&schema).unwrap();
    let b = tbl.types.iter().find(|b| b.name == "Thing").unwrap();
    assert_eq!(b.subtypes, vec![s("Thing"), s("Person"), s("Renamed"), s("Employee")]);
    let v = decode(
        &tbl,
        &s("Thing"),
        &Json::Obj(vec![(s("type"), Json::Str(s("Employee")))]),
    )
    .unwrap();
    assert_eq!(v.name, "Employee");
}

#[test]
fn discriminant_arrays_pick_the_first_known_name() {
    let tbl = table();
    let v = decode(
        &tbl,
        &s("Thing"),
        &obj(vec![(
            "type",
            Json::Arr(vec![Json::Str(s("Nope")), Json::Str(s("Person"))]),
        )]),
    )
    .unwrap();
    assert_eq!(v.name, "Person");
}
