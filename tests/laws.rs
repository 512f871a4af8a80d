use std::collections::hash_map::DefaultHasher;
use std::hash::{Hash, Hasher};

use message_format::{
    key_less, ph_type_attrs_map, FallbackPolicy, MessageError, MessageGroup, MessagePattern,
    MessageType, PHTypeAttributes, PHValsMap, PatternPart, Placeholder, PlaceholderType,
    SingleMessage, TextPart, TextUnit,
};

fn selector(pairs: &[(&str, &str)]) -> PHValsMap {
    let mut m = PHValsMap::new();
    for (k, v) in pairs {
        m.insert(String::from(*k), String::from(*v));
    }
    m
}

fn hash_of(m: &PHValsMap) -> u64 {
    let mut h = DefaultHasher::new();
    m.hash(&mut h);
    h.finish()
}

fn placeholder(id: &str) -> PatternPart {
    PatternPart::PLACEHOLDER(Placeholder {
        id: String::from(id),
        ph_type: PlaceholderType::PLURAL,
        default_text_val: None,
    })
}

fn text(t: &str) -> PatternPart {
    PatternPart::TEXTPART(TextPart { text: String::from(t) })
}

fn message(id: &str, parts: Vec<PatternPart>, key: PHValsMap) -> SingleMessage {
    SingleMessage {
        id: String::from(id),
        locale: String::from("en"),
        pattern: MessagePattern { parts },
        ph_vals: key,
    }
}

fn items_group() -> MessageGroup {
    let mut g = MessageGroup::new(String::from("items"));
    g.insert(message(
        "one",
        vec![placeholder("COUNT"), text(" item selected.")],
        selector(&[("COUNT", "ONE")]),
    ))
    .unwrap();
    g.insert(message(
        "other",
        vec![placeholder("COUNT"), text(" items selected.")],
        selector(&[("COUNT", "OTHER")]),
    ))
    .unwrap();
    g
}

#[test]
fn insertion_order_does_not_change_equality_or_hash() {
    let a = selector(&[("COUNT", "ONE"), ("GENDER", "FEMALE"), ("ITEM", "x")]);
    let b = selector(&[("ITEM", "x"), ("COUNT", "ONE"), ("GENDER", "FEMALE")]);
    assert_eq!(a, b);
    assert_eq!(hash_of(&a), hash_of(&b));
    assert_eq!(a.to_string(), b.to_string());
}

#[test]
fn case_only_difference_is_unequal() {
    assert_ne!(selector(&[("COUNT", "ONE")]), selector(&[("count", "ONE")]));
    assert_ne!(selector(&[("COUNT", "ONE")]), selector(&[("COUNT", "one")]));
    assert_ne!(selector(&[("COUNT", "ONE")]), selector(&[("COUNT", "ONE"), ("G", "M")]));
    assert_ne!(selector(&[]), selector(&[("COUNT", "ONE")]));
}

#[test]
fn insert_replaces_value_of_existing_key() {
    let a = selector(&[("COUNT", "ONE"), ("COUNT", "OTHER")]);
    assert_eq!(a, selector(&[("COUNT", "OTHER")]));
    assert_eq!(a.get(&String::from("COUNT")), Some(&String::from("OTHER")));
    assert_eq!(a.get(&String::from("GENDER")), None);
}

#[test]
fn selector_display_is_sorted_by_name() {
    let a = selector(&[("count", "5"), ("COUNT", "5"), ("B", "x")]);
    assert_eq!(a.to_string(), "{B:x, COUNT:5, count:5}");
    assert_eq!(selector(&[]).to_string(), "{}");
}

#[test]
fn catch_all_sets_every_value_to_other() {
    let a = selector(&[("COUNT", "FEW"), ("GENDER", "MALE")]);
    assert_eq!(a.catch_all(), selector(&[("GENDER", "OTHER"), ("COUNT", "OTHER")]));
}

#[test]
fn key_order_is_lexicographic_by_code_point() {
    assert!(key_less(&String::from("COUNT"), &String::from("count")));
    assert!(!key_less(&String::from("count"), &String::from("COUNT")));
    assert!(key_less(&String::from("AB"), &String::from("ABC")));
    assert!(!key_less(&String::from("ABC"), &String::from("ABC")));
    assert!(key_less(&String::from(""), &String::from("A")));
}

#[test]
fn insert_then_resolve_round_trips() {
    let mut g = MessageGroup::new(String::from("g"));
    let key = selector(&[("COUNT", "ONE"), ("GENDER", "FEMALE")]);
    g.insert(message("m", vec![text("hi")], key)).unwrap();
    let query = selector(&[("GENDER", "FEMALE"), ("COUNT", "ONE")]);
    let found = g.resolve(&query).unwrap();
    assert_eq!(found.id, "m");
    assert_eq!(g.len(), 1);
}

#[test]
fn duplicate_variant_is_refused_and_first_kept() {
    let mut g = MessageGroup::new(String::from("g"));
    g.insert(message("first", vec![text("a")], selector(&[("COUNT", "ONE")]))).unwrap();
    let r = g.insert(message("second", vec![text("b")], selector(&[("COUNT", "ONE")])));
    assert_eq!(r, Err(MessageError::DuplicateVariant));
    assert_eq!(g.len(), 1);
    assert_eq!(g.resolve(&selector(&[("COUNT", "ONE")])).unwrap().id, "first");
}

#[test]
fn render_without_value_or_default_fails() {
    let p = MessagePattern { parts: vec![placeholder("COUNT"), text(" items")] };
    assert_eq!(
        p.render(&selector(&[])),
        Err(MessageError::MissingValue(String::from("COUNT")))
    );
    assert_eq!(p.render(&selector(&[("COUNT", "3")])), Ok(String::from("3 items")));
}

#[test]
fn render_reports_first_missing_placeholder() {
    let p = MessagePattern { parts: vec![placeholder("A"), placeholder("B")] };
    assert_eq!(p.render(&selector(&[])), Err(MessageError::MissingValue(String::from("A"))));
    assert_eq!(
        p.render(&selector(&[("A", "x")])),
        Err(MessageError::MissingValue(String::from("B")))
    );
}

#[test]
fn render_prefers_supplied_value_over_default() {
    let p = MessagePattern {
        parts: vec![
            text("<"),
            PatternPart::PLACEHOLDER(Placeholder {
                id: String::from("NAME"),
                ph_type: PlaceholderType::OTHER(String::from("PRODUCT")),
                default_text_val: Some(String::from("Widget")),
            }),
            text(">"),
        ],
    };
    assert_eq!(p.render(&selector(&[])), Ok(String::from("<Widget>")));
    assert_eq!(p.render(&selector(&[("NAME", "Gadget")])), Ok(String::from("<Gadget>")));
}

#[test]
fn items_group_resolves_and_renders() {
    let g = items_group();
    let one = g.resolve(&selector(&[("COUNT", "ONE")])).unwrap();
    assert_eq!(one.id, "one");
    assert_eq!(
        one.pattern.render(&selector(&[("COUNT", "1")])),
        Ok(String::from("1 item selected."))
    );
    let few = selector(&[("COUNT", "FEW")]);
    assert!(matches!(g.resolve(&few), Err(MessageError::NoVariantFound)));
    assert!(matches!(
        g.resolve_with(&few, FallbackPolicy::Exact),
        Err(MessageError::NoVariantFound)
    ));
    assert_eq!(g.resolve_with(&few, FallbackPolicy::CatchAll).unwrap().id, "other");
}

#[test]
fn fallback_ends_at_empty_selector_set() {
    let mut g = MessageGroup::new(String::from("g"));
    g.insert(message("default", vec![text("d")], selector(&[]))).unwrap();
    let q = selector(&[("GENDER", "FEMALE")]);
    assert_eq!(g.resolve_with(&q, FallbackPolicy::CatchAll).unwrap().id, "default");
    let empty = MessageGroup::new(String::from("e"));
    assert!(matches!(
        empty.resolve_with(&q, FallbackPolicy::CatchAll),
        Err(MessageError::NoVariantFound)
    ));
}

#[test]
fn text_unit_shapes_must_match() {
    let single = || MessageType::SINGLE(message("m", vec![text("a")], selector(&[])));
    let group = || MessageType::GROUP(items_group());
    assert!(matches!(TextUnit::new(single(), group()), Err(MessageError::ShapeMismatch)));
    assert!(matches!(TextUnit::new(group(), single()), Err(MessageError::ShapeMismatch)));
    let u = TextUnit::new(single(), single()).unwrap();
    assert!(matches!(u.src(), MessageType::SINGLE(_)));
    assert!(matches!(u.tgt(), MessageType::SINGLE(_)));
    assert!(TextUnit::new(group(), group()).is_ok());
}

#[test]
fn display_forms() {
    let ph = Placeholder {
        id: String::from("COUNT"),
        ph_type: PlaceholderType::PLURAL,
        default_text_val: None,
    };
    assert_eq!(ph.to_string(), "{COUNT}");
    assert_eq!(TextPart { text: String::from("abc") }.to_string(), "abc");
    let p = MessagePattern { parts: vec![placeholder("COUNT"), text(" item selected.")] };
    assert_eq!(p.to_string(), "[{COUNT} item selected.]");
    let g = items_group();
    assert_eq!(g.id(), "items");
    assert_eq!(
        g.to_string(),
        "items: {\n  {COUNT:ONE}: [{COUNT} item selected.]\n  {COUNT:OTHER}: [{COUNT} items selected.]\n}"
    );
    assert_eq!(MessageGroup::new(String::from("e")).to_string(), "e: {\n}");
}

#[test]
fn attribute_table_marks_gender_and_plural_enumerated() {
    let t = ph_type_attrs_map();
    assert_eq!(t.len(), 2);
    assert_eq!(t[0], (PlaceholderType::GENDER, PHTypeAttributes { enumerated: true }));
    assert_eq!(t[1], (PlaceholderType::PLURAL, PHTypeAttributes { enumerated: true }));
}
