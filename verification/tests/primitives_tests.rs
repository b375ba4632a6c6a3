use activity_vocabulary::primitives::{
    LangContainer, MergeableProperty, Or, Property, Remotable, SkipSerialization,
};

#[test]
fn or_sides_are_told_apart() {
    let l: Or<u32, bool> = Or::Prim(7);
    assert_eq!(l.prim(), Some(&7));
    assert_eq!(l.snd(), None);
    let r: Or<u32, bool> = Or::Snd(true);
    assert_eq!(r.prim(), None);
    assert_eq!(r.snd(), Some(&true));
}

#[test]
fn or_from_takes_the_first_side() {
    let v: Or<u32, bool> = Or::from(3);
    assert_eq!(v, Or::Prim(3));
}

#[test]
fn property_merge_concatenates() {
    let mut p = Property(vec![1, 2]);
    p.merge(Property(vec![3]));
    assert_eq!(p.0, vec![1, 2, 3]);
}

#[test]
fn skip_rules_follow_emptiness() {
    assert!(Property::<u32>(vec![]).should_skip());
    assert!(!Property(vec![1]).should_skip());
    assert!(None::<u32>.should_skip());
    assert!(!Some(1).should_skip());
    let empty: Vec<(String, u32)> = vec![];
    assert!(empty.should_skip());
}

#[test]
fn lang_container_merge_is_shallow() {
    let mut c = LangContainer {
        default: Some(Property(vec![1])),
        per_lang: vec![("en".to_string(), Property(vec![1]))],
    };
    c.merge(LangContainer {
        default: Some(Property(vec![9])),
        per_lang: vec![
            ("en".to_string(), Property(vec![2])),
            ("fr".to_string(), Property(vec![3])),
        ],
    });
    // The incoming default replaces, and per-language values overwrite.
    assert_eq!(c.default, Some(Property(vec![9])));
    assert_eq!(
        c.per_lang,
        vec![
            ("en".to_string(), Property(vec![2])),
            ("fr".to_string(), Property(vec![3])),
        ]
    );
}

#[test]
fn lang_container_deep_merge_merges_values() {
    let mut c = LangContainer {
        default: Some(Property(vec![1])),
        per_lang: vec![("en".to_string(), Property(vec![1]))],
    };
    c.deep_merge(LangContainer {
        default: Some(Property(vec![2])),
        per_lang: vec![
            ("en".to_string(), Property(vec![2])),
            ("fr".to_string(), Property(vec![3])),
        ],
    });
    // Defaults merge by concatenation, and so does a shared language.
    assert_eq!(c.default, Some(Property(vec![1, 2])));
    assert_eq!(
        c.per_lang,
        vec![
            ("en".to_string(), Property(vec![1, 2])),
            ("fr".to_string(), Property(vec![3])),
        ]
    );
}

#[test]
fn remotable_carries_both_shapes() {
    let a: Remotable<u32> = Remotable::Remote("https://ex.org/1".to_string());
    let b: Remotable<u32> = Remotable::Inline(5);
    assert_ne!(a, b);
    match a {
        Remotable::Remote(u) => assert_eq!(u, "https://ex.org/1"),
        _ => panic!(),
    }
}
