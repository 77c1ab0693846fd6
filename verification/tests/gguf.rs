use z1::gguf::{arch_key, GgufValue, Metadata, ModelHeader};

fn key(s: &str) -> String {
    s.to_string()
}

#[test]
fn the_last_value_under_a_key_counts() {
    let mut m = Metadata::new();
    assert!(m.get(&key("a")).is_none());
    m.insert(key("a"), GgufValue::U32(1));
    m.insert(key("b"), GgufValue::U32(2));
    m.insert(key("a"), GgufValue::U32(3));
    assert_eq!(m.get_u32(&key("a")), 3);
    assert_eq!(m.get_u32(&key("b")), 2);
    assert_eq!(m.get_u32(&key("c")), 0);
}

#[test]
fn integers_of_other_widths_count_where_they_fit() {
    let mut m = Metadata::new();
    m.insert(key("small"), GgufValue::Int(Some(7)));
    m.insert(key("large"), GgufValue::Int(None));
    m.insert(key("text"), GgufValue::Str(key("9")));
    assert_eq!(m.get_u32(&key("small")), 7);
    assert_eq!(m.get_u32(&key("large")), 0);
    assert_eq!(m.get_u32(&key("text")), 0);
    assert_eq!(GgufValue::U32(5).as_u32(), Some(5));
    assert_eq!(GgufValue::Other.as_u32(), None);
}

#[test]
fn floats_have_a_default() {
    let mut m = Metadata::new();
    m.insert(key("f"), GgufValue::F32(2.5f32.to_bits()));
    m.insert(key("u"), GgufValue::U32(3));
    assert_eq!(f32::from_bits(m.get_f32(&key("f"), 0)), 2.5);
    assert_eq!(m.get_f32(&key("u"), 11), 11);
    assert_eq!(m.get_f32(&key("none"), 12), 12);
}

#[test]
fn lists_are_filtered_by_type() {
    let mut m = Metadata::new();
    m.insert(
        key("list"),
        GgufValue::Array(vec![
            GgufValue::Str(key("x")),
            GgufValue::U32(4),
            GgufValue::F32(1.5f32.to_bits()),
            GgufValue::Str(key("y")),
            GgufValue::Int(Some(9)),
            GgufValue::U32(5),
        ]),
    );
    m.insert(key("one"), GgufValue::U32(1));
    assert_eq!(m.get_str_arr(&key("list")), vec!["x", "y"]);
    assert_eq!(m.get_f32_arr(&key("list")), vec![1.5f32.to_bits()]);
    assert_eq!(m.get_u32_arr(&key("list")), vec![4, 5]);
    assert!(m.get_str_arr(&key("one")).is_empty());
    assert!(m.get_u32_arr(&key("gone")).is_empty());
    assert!(m.get_f32_arr(&key("gone")).is_empty());
}

#[test]
fn the_architecture_defaults_to_llama() {
    let named = ModelHeader { architecture: Some(key("qwen2")), metadata: Metadata::new() };
    let bare = ModelHeader { architecture: None, metadata: Metadata::new() };
    assert_eq!(named.arch_or_llama(), "qwen2");
    assert_eq!(bare.arch_or_llama(), "llama");
    assert_eq!(arch_key(&key("llama"), "block_count"), "llama.block_count");
}
