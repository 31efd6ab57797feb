use iml::num::Fixed;
use iml::state::{StateMap, Value};
use iml::template::{bind, BindingError};

fn sample_state(slider_val: u64) -> StateMap {
    let mut st = StateMap::new();
    st.set(b"clicked".to_vec(), Value::Bool(false));
    st.set(b"some_message".to_vec(), Value::Text(b"".to_vec()));
    st.set(b"slider_val".to_vec(), Value::Num(Fixed { thousandths: slider_val }));
    st
}

#[test]
fn binds_numeric_field() {
    let st = sample_state(42_500);
    let template = b"Slider(\"v\",0.0..={{slider_val}},\"Cb\")".to_vec();
    let bound = bind(&template, &st).unwrap();
    let text = String::from_utf8(bound).unwrap();
    assert!(text.contains("42.5"));
    assert_eq!(text, "Slider(\"v\",0.0..=42.5,\"Cb\")");
}

#[test]
fn binds_text_and_bool_fields() {
    let mut st = sample_state(0);
    st.set(b"greeting".to_vec(), Value::Text(b"hello".to_vec()));
    let template = b"{{greeting}} {{clicked}}".to_vec();
    let bound = bind(&template, &st).unwrap();
    assert_eq!(String::from_utf8(bound).unwrap(), "hello false");
}

#[test]
fn substitution_is_single_pass() {
    let mut st = StateMap::new();
    st.set(b"a".to_vec(), Value::Text(b"{{b}}".to_vec()));
    st.set(b"b".to_vec(), Value::Text(b"inner".to_vec()));
    let template = b"{{a}}".to_vec();
    let bound = bind(&template, &st).unwrap();
    assert_eq!(String::from_utf8(bound).unwrap(), "{{b}}");
}

#[test]
fn unknown_field_is_rejected() {
    let st = sample_state(0);
    let template = b"{{missing}}".to_vec();
    assert_eq!(bind(&template, &st).unwrap_err(), BindingError::UnknownField);
}

#[test]
fn unclosed_placeholder_is_rejected() {
    let st = sample_state(0);
    let template = b"before {{slider_val".to_vec();
    assert_eq!(bind(&template, &st).unwrap_err(), BindingError::Malformed);
}

#[test]
fn plain_text_passes_through() {
    let st = sample_state(0);
    let template = b"no placeholders { } here".to_vec();
    let bound = bind(&template, &st).unwrap();
    assert_eq!(bound, template);
}
