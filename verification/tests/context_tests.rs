use activity_vocabulary::codec::{decode_with_context, encode_with_context};
use activity_vocabulary::context::{decode_context, encode_context, Context};
use activity_vocabulary::error::DecodeError;
use activity_vocabulary::json::Json;
use activity_vocabulary::schema::{PropertyDef, PropertyKind, Schema, TypeDef};

#[test]
fn context_single_identifier_is_a_bare_string() {
    let j = Json::Str("https://www.w3.org/ns/activitystreams".to_string());
    let c = decode_context(&j).unwrap();
    assert_eq!(c.urls, vec!["https://www.w3.org/ns/activitystreams".to_string()]);
    assert!(c.inline.is_empty());
    assert_eq!(encode_context(&c), j);
}

#[test]
fn context_mixed_array_merges_inline_objects() {
    let j = Json::Arr(vec![
        Json::Str("https://www.w3.org/ns/activitystreams".to_string()),
        Json::Obj(vec![
            ("css".to_string(), Json::Str("http://www.w3.org/ns/oa#styledBy".to_string())),
            ("dup".to_string(), Json::Int(1)),
        ]),
        Json::Obj(vec![("dup".to_string(), Json::Int(2))]),
    ]);
    let c = decode_context(&j).unwrap();
    assert_eq!(c.urls.len(), 1);
    assert_eq!(
        c.inline,
        vec![
            ("css".to_string(), Json::Str("http://www.w3.org/ns/oa#styledBy".to_string())),
            ("dup".to_string(), Json::Int(2)),
        ]
    );
    // Re-encoding: the identifiers, then exactly one trailing merged object.
    match encode_context(&c) {
        Json::Arr(items) => {
            assert_eq!(items.len(), 2);
            assert!(matches!(items[0], Json::Str(_)));
            assert!(matches!(items[1], Json::Obj(_)));
        }
        _ => panic!("expected an array"),
    }
}

#[test]
fn context_inline_only_is_a_bare_object() {
    let j = Json::Obj(vec![("a".to_string(), Json::Int(1))]);
    let c = decode_context(&j).unwrap();
    assert!(c.urls.is_empty());
    assert_eq!(encode_context(&c), j);
}

#[test]
fn context_many_identifiers_stay_an_array() {
    let j = Json::Arr(vec![
        Json::Str("https://ex.org/a".to_string()),
        Json::Str("https://ex.org/b".to_string()),
    ]);
    let c = decode_context(&j).unwrap();
    assert_eq!(encode_context(&c), j);
}

#[test]
fn context_rejects_a_bad_identifier() {
    let j = Json::Str("not a url".to_string());
    assert!(decode_context(&j).is_err());
}

#[test]
fn context_rejects_odd_shapes() {
    assert!(decode_context(&Json::Int(3)).is_err());
    assert!(decode_context(&Json::Arr(vec![Json::Int(3)])).is_err());
}

#[test]
fn context_identifiers_are_normalized() {
    // The url crate lowercases the scheme and host; a context built by
    // decode therefore never returns the raw spelling.
    let j = Json::Str("HTTPS://EX.ORG/Path".to_string());
    let c = decode_context(&j).unwrap();
    assert_eq!(c.urls, vec!["https://ex.org/Path".to_string()]);
}

#[test]
fn context_empty_array_round_trips() {
    let j = Json::Arr(vec![]);
    let c = decode_context(&j).unwrap();
    assert_eq!(c, Context { urls: vec![], inline: vec![] });
    assert_eq!(encode_context(&c), j);
}

#[test]
fn document_envelope_carries_context_and_body() {
    let thing = TypeDef {
        uri: "https://ex.org/ns#Thing".to_string(),
        extends: vec![],
        properties: vec![(
            "summary".to_string(),
            PropertyDef::Simple {
                tag: None,
                property_type: "String".to_string(),
                aka: vec![],
                uri: String::new(),
                doc: String::new(),
                kind: PropertyKind::Normal,
            },
        )],
        preferred_property_name: vec![],
        except_properties: vec![],
        doc: String::new(),
    };
    let schema = Schema { types: vec![("Thing".to_string(), thing)] };
    let tbl = activity_vocabulary::bindings::compile_schema(&schema).unwrap();
    let doc = Json::Obj(vec![
        (
            "@context".to_string(),
            Json::Str("https://www.w3.org/ns/activitystreams".to_string()),
        ),
        ("summary".to_string(), Json::Str("hi".to_string())),
    ]);
    let wc = decode_with_context(&tbl, &"Thing".to_string(), &doc).unwrap();
    let ctx = wc.context.as_ref().unwrap();
    assert_eq!(ctx.urls, vec!["https://www.w3.org/ns/activitystreams".to_string()]);
    assert_eq!(wc.body.name, "Thing");
    // Round trip: re-encoding and decoding again yields the same envelope.
    let e = encode_with_context(&tbl, &wc);
    let wc2 = decode_with_context(&tbl, &"Thing".to_string(), &e).unwrap();
    assert_eq!(wc, wc2);
}

#[test]
fn document_envelope_rejects_two_contexts() {
    let thing = TypeDef {
        uri: "https://ex.org/ns#Thing".to_string(),
        extends: vec![],
        properties: vec![],
        preferred_property_name: vec![],
        except_properties: vec![],
        doc: String::new(),
    };
    let schema = Schema { types: vec![("Thing".to_string(), thing)] };
    let tbl = activity_vocabulary::bindings::compile_schema(&schema).unwrap();
    let doc = Json::Obj(vec![
        ("@context".to_string(), Json::Str("https://ex.org/a".to_string())),
        ("@context".to_string(), Json::Str("https://ex.org/b".to_string())),
    ]);
    let r = decode_with_context(&tbl, &"Thing".to_string(), &doc);
    assert_eq!(r.unwrap_err(), DecodeError::DuplicateField("@context".to_string()));
}
