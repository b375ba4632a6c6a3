use activity_vocabulary::codec::{decode, upcast, TaggedContentVisitor};
use activity_vocabulary::json::Json;
use activity_vocabulary::schema::{PropertyDef, PropertyKind, Schema, TypeDef};
use activity_vocabulary::unit::Unit;

#[test]
fn units_read_their_names() {
    assert_eq!(Unit::from_text(&"cm".to_string()).unwrap(), Unit::Cm);
    assert_eq!(Unit::from_text(&"feet".to_string()).unwrap(), Unit::Feet);
    assert_eq!(Unit::from_text(&"inches".to_string()).unwrap(), Unit::Inches);
    assert_eq!(Unit::from_text(&"km".to_string()).unwrap(), Unit::Km);
    assert_eq!(Unit::from_text(&"m".to_string()).unwrap(), Unit::M);
    assert_eq!(Unit::from_text(&"miles".to_string()).unwrap(), Unit::Miles);
    assert_eq!(Unit::default(), Unit::M);
}

#[test]
fn unit_urls_are_normalized() {
    let u = Unit::from_text(&"HTTPS://EX.ORG/furlong".to_string()).unwrap();
    assert_eq!(u, Unit::Uri("https://ex.org/furlong".to_string()));
    assert!(Unit::from_text(&"parsecs".to_string()).is_err());
}

#[test]
fn unit_round_trips_through_text() {
    for text in ["cm", "feet", "inches", "km", "m", "miles", "https://ex.org/furlong"] {
        let u = Unit::from_text(&text.to_string()).unwrap();
        assert_eq!(Unit::from_text(&u.to_text()).unwrap(), u);
    }
}

#[test]
fn tagged_content_visitor_finds_the_last_discriminant() {
    let v = TaggedContentVisitor::new("Thing".to_string(), "type".to_string());
    let entries = vec![
        ("a".to_string(), Json::Int(1)),
        ("type".to_string(), Json::Str("First".to_string())),
        ("type".to_string(), Json::Str("Last".to_string())),
    ];
    assert_eq!(v.tag_value(&entries), Some(&Json::Str("Last".to_string())));
    let empty: Vec<(String, Json)> = vec![];
    assert_eq!(v.tag_value(&empty), None);
}

#[test]
fn upcast_defaults_missing_fields() {
    let base = TypeDef {
        uri: "https://ex.org/ns#Base".to_string(),
        extends: vec![],
        properties: vec![(
            "name".to_string(),
            PropertyDef::Simple {
                tag: None,
                property_type: "String".to_string(),
                aka: vec![],
                uri: String::new(),
                doc: String::new(),
                kind: PropertyKind::Normal,
            },
        )],
        preferred_property_name: vec![],
        except_properties: vec![],
        doc: String::new(),
    };
    let sub = TypeDef {
        uri: "https://ex.org/ns#Sub".to_string(),
        extends: vec!["Base".to_string()],
        properties: vec![(
            "extra".to_string(),
            PropertyDef::Simple {
                tag: None,
                property_type: "Int".to_string(),
                aka: vec![],
                uri: String::new(),
                doc: String::new(),
                kind: PropertyKind::Functional,
            },
        )],
        preferred_property_name: vec![],
        except_properties: vec![],
        doc: String::new(),
    };
    let schema = Schema {
        types: vec![("Base".to_string(), base), ("Sub".to_string(), sub)],
    };
    let tbl = activity_vocabulary::bindings::compile_schema(&schema).unwrap();
    let v = decode(
        &tbl,
        &"Base".to_string(),
        &Json::Obj(vec![
            ("type".to_string(), Json::Str("Sub".to_string())),
            ("name".to_string(), Json::Str("n".to_string())),
            ("extra".to_string(), Json::Int(3)),
        ]),
    )
    .unwrap();
    assert_eq!(v.name, "Sub");
    // The shared field moves across; the subtype-only field is dropped.
    let up = upcast(&tbl, &v, &"Base".to_string()).unwrap();
    assert_eq!(up.name, "Base");
    let direct = decode(
        &tbl,
        &"Base".to_string(),
        &Json::Obj(vec![("name".to_string(), Json::Str("n".to_string()))]),
    )
    .unwrap();
    assert_eq!(up, direct);
}

#[test]
fn upcast_is_total_for_required_targets() {
    // The subtype suppresses an inherited required property; upcasting
    // back fills it with the absent slot rather than refusing.
    let base = TypeDef {
        uri: "https://ex.org/ns#Base".to_string(),
        extends: vec![],
        properties: vec![(
            "id".to_string(),
            PropertyDef::Simple {
                tag: None,
                property_type: "String".to_string(),
                aka: vec![],
                uri: String::new(),
                doc: String::new(),
                kind: PropertyKind::Required,
            },
        )],
        preferred_property_name: vec![],
        except_properties: vec![],
        doc: String::new(),
    };
    let sub = TypeDef {
        uri: "https://ex.org/ns#Sub".to_string(),
        extends: vec!["Base".to_string()],
        properties: vec![],
        preferred_property_name: vec![],
        except_properties: vec!["id".to_string()],
        doc: String::new(),
    };
    let schema = Schema {
        types: vec![("Base".to_string(), base), ("Sub".to_string(), sub)],
    };
    let tbl = activity_vocabulary::bindings::compile_schema(&schema).unwrap();
    let v = decode(&tbl, &"Sub".to_string(), &Json::Obj(vec![])).unwrap();
    let up = upcast(&tbl, &v, &"Base".to_string()).unwrap();
    assert_eq!(up.name, "Base");
    assert_eq!(
        up.fields,
        vec![activity_vocabulary::values::FieldValue::Simple(
            activity_vocabulary::values::Slot::Opt(None)
        )]
    );
}
