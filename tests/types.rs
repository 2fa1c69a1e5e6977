use std::sync::Arc;

use dropin::types::{CustomType, Format, Type};

fn text_type() -> Arc<dyn Type> {
    Arc::new(CustomType::new("text".to_string()))
}

#[test]
fn custom_type_templates() {
    let mut t = CustomType::new("point".to_string());
    assert!(!t.has_template(&"x".to_string()));
    t.add_template("x".to_string(), Format::new(text_type()));
    assert!(t.has_template(&"x".to_string()));
    assert!(!t.has_template(&"y".to_string()));
    t.add_template("x".to_string(), Format::new(text_type()));
    assert!(t.has_template(&"x".to_string()));
}

#[test]
fn format_set_format_uses_empty_key() {
    let mut f: Format<dyn Type> = Format::new(text_type());
    assert!(!f.has_part(&String::new()));
    f.set_format(Format::new(text_type()));
    assert!(f.has_part(&String::new()));
    assert!(!f.has_part(&"a".to_string()));
}

#[test]
fn format_add_format_by_key() {
    let mut f: Format<dyn Type> = Format::new(text_type());
    f.add_format("a".to_string(), Format::new(text_type()));
    f.add_format("b".to_string(), Format::new(text_type()));
    assert!(f.has_part(&"a".to_string()));
    assert!(f.has_part(&"b".to_string()));
    assert!(!f.has_part(&"c".to_string()));
}

#[test]
fn format_keeps_its_type() {
    let t = text_type();
    let mut f: Format<dyn Type> = Format::new(t.clone());
    f.add_format("a".to_string(), Format::new(text_type()));
    assert_eq!(Arc::strong_count(&t), 2);
}
