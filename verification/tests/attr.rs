use rustuna::attr::{
    category_labels_to_attrs, decimal_notation, extract_fixed_params, fixed_params_to_attrs,
    get_category_labels, system_key_category_label, system_key_fixed_param, AttrKey, Attrs,
    CategoryLabel, Decimals,
};
use rustuna::float::Float;
use rustuna::key_map::KeyMap;

fn f(value: f64) -> Float {
    Float::from_bits(value.to_bits())
}

/// Floats in decimal notation, read ahead of the library.
fn decimals(texts: &[&str]) -> Decimals {
    let mut out: Decimals = KeyMap::new();
    for text in texts {
        if let Some(number) = decimal_notation(text) {
            if let Ok(value) = number.parse::<f64>() {
                out.insert(number, f(value));
            }
        }
    }
    out
}

#[test]
fn test_category_label() {
    let categories = vec![
        CategoryLabel::Float(f(1.0)),
        CategoryLabel::Float(f(f64::from_bits(1))),
        CategoryLabel::Int(2),
        CategoryLabel::String("3".to_string()),
        CategoryLabel::Bool(true),
        CategoryLabel::Bool(false),
        CategoryLabel::Null,
    ];
    let none: Decimals = KeyMap::new();
    for c in categories {
        let s = c.serialize();
        let c2 = CategoryLabel::deserialize(&s, &none).expect("Failed to deserialize category label");
        assert!(c.equals(&c2));
    }
}

#[test]
fn test_category_label_deserialize_legacy_float_format() {
    let value = 2.2250738585072014e-308_f64;
    let serialized = format!("f:{value}");
    let known = decimals(&[serialized.as_str()]);
    let deserialized = CategoryLabel::deserialize(&serialized, &known).unwrap();
    assert!(deserialized.equals(&CategoryLabel::Float(f(value))));
}

#[test]
fn labels_have_stable_texts() {
    assert_eq!(CategoryLabel::Float(f(1.0)).serialize(), "f:0x3ff0000000000000");
    assert_eq!(CategoryLabel::Float(f(f64::from_bits(1))).serialize(), format!("f:0x{:016x}", 1));
    assert_eq!(CategoryLabel::Int(-12).serialize(), "i:-12");
    assert_eq!(CategoryLabel::Int(i64::MIN).serialize(), format!("i:{}", i64::MIN));
    assert_eq!(CategoryLabel::String("a b".to_string()).serialize(), "s:a b");
    assert_eq!(CategoryLabel::Bool(true).serialize(), "true");
    assert_eq!(CategoryLabel::Bool(false).serialize(), "false");
    assert_eq!(CategoryLabel::Null.serialize(), "None");
}

#[test]
fn texts_that_are_no_labels_are_refused() {
    let none: Decimals = KeyMap::new();
    for text in ["", "x:1", "i:", "i:1.5", "i:9223372036854775808", "f:0xzz", "True", "f:1.5"] {
        assert!(CategoryLabel::deserialize(text, &none).is_none(), "{text}");
    }
}

#[test]
fn integer_labels_read_back_at_the_bounds() {
    let none: Decimals = KeyMap::new();
    for i in [0, 1, -1, 10, i64::MAX, i64::MIN] {
        let label = CategoryLabel::Int(i);
        let back = CategoryLabel::deserialize(&label.serialize(), &none).unwrap();
        assert!(matches!(back, CategoryLabel::Int(j) if j == i));
    }
}

#[test]
fn labels_are_equal_by_number() {
    assert!(CategoryLabel::Float(f(0.0)).equals(&CategoryLabel::Float(f(-0.0))));
    assert!(!CategoryLabel::Float(f(f64::NAN)).equals(&CategoryLabel::Float(f(f64::NAN))));
    assert!(!CategoryLabel::Int(1).equals(&CategoryLabel::Float(f(1.0))));
    assert!(!CategoryLabel::Bool(true).equals(&CategoryLabel::Int(1)));
}

#[test]
fn keys_name_the_parameter() {
    match system_key_category_label("x", 12) {
        AttrKey::System(name) => assert!(name.contains('x') && name.contains("12")),
        AttrKey::User(_) => panic!("a label is a system attribute"),
    }
    match system_key_fixed_param("x") {
        AttrKey::System(name) => assert!(name.contains('x')),
        AttrKey::User(_) => panic!("a fixed parameter is a system attribute"),
    }
}

#[test]
fn category_labels_read_back() {
    let labels = vec![CategoryLabel::String("a".to_string()), CategoryLabel::Int(3), CategoryLabel::Null];
    let attrs = category_labels_to_attrs("x", &labels);
    assert_eq!(attrs.len(), 3);
    let none: Decimals = KeyMap::new();
    let back = get_category_labels(&attrs, "x", 3, &none).unwrap();
    assert_eq!(back.len(), 3);
    for i in 0..3 {
        assert!(back[i].equals(&labels[i]));
    }
    assert!(get_category_labels(&attrs, "x", 4, &none).is_none());
    assert!(get_category_labels(&attrs, "y", 1, &none).is_none());
}

#[test]
fn fixed_params_read_back() {
    let mut params: KeyMap<String, CategoryLabel> = KeyMap::new();
    params.insert("x".to_string(), CategoryLabel::Float(f(0.25)));
    params.insert("n".to_string(), CategoryLabel::Int(7));
    let mut attrs = fixed_params_to_attrs(&params);
    attrs.insert(AttrKey::User("x".to_string()), "i:1".to_string());
    attrs.insert(AttrKey::System("other".to_string()), "i:2".to_string());
    let none: Decimals = KeyMap::new();
    let back = extract_fixed_params(&attrs, &none);
    assert_eq!(back.len(), 2);
    assert!(back.get(&"x".to_string()).unwrap().equals(&CategoryLabel::Float(f(0.25))));
    assert!(back.get(&"n".to_string()).unwrap().equals(&CategoryLabel::Int(7)));
}

#[test]
fn a_map_keeps_the_last_value_and_the_first_place() {
    let mut attrs: Attrs = KeyMap::new();
    attrs.insert(AttrKey::User("a".to_string()), "1".to_string());
    attrs.insert(AttrKey::User("b".to_string()), "2".to_string());
    attrs.insert(AttrKey::User("a".to_string()), "3".to_string());
    assert_eq!(attrs.len(), 2);
    assert_eq!(attrs.get(&AttrKey::User("a".to_string())).unwrap(), "3");
    assert!(!attrs.contains_key(&AttrKey::System("a".to_string())));
    let (key, value) = attrs.entry(0);
    assert!(matches!(key, AttrKey::User(name) if name == "a"));
    assert_eq!(value, "3");
}

#[test]
fn label_keys_of_different_choices_differ() {
    let names = ["x", "x:1", "x:1:2", ""];
    let mut seen: Vec<String> = Vec::new();
    for name in names {
        for choice in [0, 1, 2, 12, 21] {
            let key = match system_key_category_label(name, choice) {
                AttrKey::System(key) => key,
                AttrKey::User(_) => panic!("a label is a system attribute"),
            };
            assert!(!seen.contains(&key));
            seen.push(key);
        }
    }
}
