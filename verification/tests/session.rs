use iml::num::Fixed;
use iml::render::{MatError, RenderNode};
use iml::resolver::{resolve, CallbackError, MessageSchema};
use iml::session::{Hotswappo, ImlFile, ReloadError, ViewError};
use iml::state::{StateMap, Value};
use iml::store::{ButtonState, Path, PathSeg, StateStore, StoreError, WidgetKind, WidgetState};

fn sample_state() -> StateMap {
    let mut st = StateMap::new();
    st.set(b"clicked".to_vec(), Value::Bool(false));
    st.set(b"some_message".to_vec(), Value::Text(b"".to_vec()));
    st.set(b"slider_val".to_vec(), Value::Num(Fixed { thousandths: 0 }));
    st
}

fn sample_schema() -> MessageSchema {
    let mut schema = MessageSchema::new();
    schema.register(b"Testaroo".to_vec(), false);
    schema.register(b"TestarooTwo".to_vec(), true);
    schema
}

const BUTTON_LAYOUT: &str =
    "Root(Column([Text(\"hello\"),Text(\"world\"),Button(Text(\"button\"),\"Testaroo\")]))";

const MIXED_LAYOUT: &str = "Root(Column([Text(\"hello\"),Button(Text(\"button\"),\"Testaroo\"),Slider(\"slider_val\",0.0..={{slider_val}},\"TestarooTwo\")]))";

fn button_path() -> Path {
    Path::root().child(PathSeg::ColumnChild(2)).child(PathSeg::Button)
}

#[test]
fn store_creates_and_preserves_records() {
    let mut store = StateStore::new();
    let p = button_path();
    let w = store.get_or_create(&p, WidgetKind::Button).unwrap();
    assert_eq!(w, WidgetState::Button(ButtonState { pressed: false }));
    store.set(&p, WidgetState::Button(ButtonState { pressed: true })).unwrap();
    let w2 = store.get_or_create(&p, WidgetKind::Button).unwrap();
    assert_eq!(w2, WidgetState::Button(ButtonState { pressed: true }));
}

#[test]
fn store_reports_kind_mismatch() {
    let mut store = StateStore::new();
    let p = button_path();
    store.get_or_create(&p, WidgetKind::Button).unwrap();
    assert_eq!(
        store.get_or_create(&p, WidgetKind::Slider).unwrap_err(),
        StoreError::KindMismatch
    );
}

#[test]
fn pressing_button_resolves_testaroo_and_leaves_state_alone() {
    let mut file = ImlFile::load_iml(BUTTON_LAYOUT.as_bytes().to_vec(), sample_state());
    let render = file.view().unwrap();
    let callback = match &render {
        RenderNode::Column(children) => {
            assert_eq!(children.len(), 3);
            assert_eq!(children[0], RenderNode::Text(b"hello".to_vec()));
            assert_eq!(children[1], RenderNode::Text(b"world".to_vec()));
            match &children[2] {
                RenderNode::Button { content, callback_name, pressed } => {
                    assert_eq!(**content, RenderNode::Text(b"button".to_vec()));
                    assert!(!pressed);
                    callback_name.clone()
                },
                other => panic!("expected a button, got {:?}", other),
            }
        },
        other => panic!("expected a column, got {:?}", other),
    };
    let schema = sample_schema();
    let message = resolve(&schema, &callback, None).unwrap();
    assert_eq!(message.name, b"Testaroo".to_vec());
    assert!(message.arg.is_none());
    let state = file.state();
    match state.get(&b"some_message".to_vec()).unwrap() {
        Value::Text(t) => assert_eq!(t, &b"".to_vec()),
        other => panic!("unexpected value {:?}", other),
    }
    match state.get(&b"slider_val".to_vec()).unwrap() {
        Value::Num(x) => assert_eq!(*x, Fixed { thousandths: 0 }),
        other => panic!("unexpected value {:?}", other),
    }
}

#[test]
fn slider_drag_resolves_testaroo_two() {
    let schema = sample_schema();
    let message = resolve(&schema, &b"TestarooTwo".to_vec(), Some(Fixed { thousandths: 37_000 }))
        .unwrap();
    assert_eq!(message.name, b"TestarooTwo".to_vec());
    assert_eq!(message.arg, Some(Fixed { thousandths: 37_000 }));
}

#[test]
fn unknown_callback_is_rejected() {
    let schema = sample_schema();
    assert_eq!(
        resolve(&schema, &b"Testar00".to_vec(), None).unwrap_err(),
        CallbackError::UnknownName
    );
    assert_eq!(
        resolve(&schema, &b"Testaroo".to_vec(), Some(Fixed { thousandths: 1 })).unwrap_err(),
        CallbackError::WrongArity
    );
}

#[test]
fn render_is_idempotent() {
    let mut file = ImlFile::load_iml(MIXED_LAYOUT.as_bytes().to_vec(), sample_state());
    let first = file.view().unwrap();
    let second = file.view().unwrap();
    assert_eq!(first, second);
}

#[test]
fn missing_slider_field_fails_materialization() {
    let layout = "Root(Slider(\"absent\",0.0..=100.0,\"TestarooTwo\"))";
    let mut file = ImlFile::load_iml(layout.as_bytes().to_vec(), sample_state());
    assert_eq!(
        file.view().unwrap_err(),
        ViewError::Materialize(MatError::FieldNotFound)
    );
}

#[test]
fn reload_failure_leaves_session_untouched() {
    let mut session = Hotswappo::new(b"layout.iml".to_vec(), sample_state());
    session.get(1, BUTTON_LAYOUT.as_bytes().to_vec()).unwrap();
    assert_eq!(session.reload_count, 1);
    assert_eq!(session.last_update, Some(1));
    let err = session.get(2, b"Root(Zoot)".to_vec()).unwrap_err();
    assert_eq!(err, ReloadError::Schema(iml::parse::SchemaError::UnknownVariant));
    assert_eq!(session.reload_count, 1);
    assert_eq!(session.last_update, Some(1));
    let file = session.layout.as_mut().unwrap();
    assert_eq!(file.templated_source, BUTTON_LAYOUT.as_bytes().to_vec());
    assert!(file.view().is_ok());
}

#[test]
fn unchanged_file_is_not_reloaded() {
    let mut session = Hotswappo::new(b"layout.iml".to_vec(), sample_state());
    session.get(5, BUTTON_LAYOUT.as_bytes().to_vec()).unwrap();
    assert_eq!(session.reload_count, 1);
    session.get(5, BUTTON_LAYOUT.as_bytes().to_vec()).unwrap();
    session.get(3, BUTTON_LAYOUT.as_bytes().to_vec()).unwrap();
    assert_eq!(session.reload_count, 1);
    session.get(6, BUTTON_LAYOUT.as_bytes().to_vec()).unwrap();
    assert_eq!(session.reload_count, 2);
}

#[test]
fn toggled_record_survives_reload_at_same_position() {
    let mut session = Hotswappo::new(b"layout.iml".to_vec(), sample_state());
    session.get(1, BUTTON_LAYOUT.as_bytes().to_vec()).unwrap();
    let p = button_path();
    {
        let file = session.layout.as_mut().unwrap();
        file.view().unwrap();
        file.widget_states
            .set(&p, WidgetState::Button(ButtonState { pressed: true }))
            .unwrap();
    }
    // The edit keeps the button at root.column.children[2].button.
    let edited =
        "Root(Column([Text(\"hi\"),Text(\"world\"),Button(Text(\"renamed\"),\"Testaroo\")]))";
    session.get(2, edited.as_bytes().to_vec()).unwrap();
    let file = session.layout.as_mut().unwrap();
    assert_eq!(
        file.widget_states.get(&p),
        Some(WidgetState::Button(ButtonState { pressed: true }))
    );
    let render = file.view().unwrap();
    match render {
        RenderNode::Column(children) => match &children[2] {
            RenderNode::Button { pressed, .. } => assert!(*pressed),
            other => panic!("expected a button, got {:?}", other),
        },
        other => panic!("expected a column, got {:?}", other),
    }
}

#[test]
fn record_is_reassigned_when_siblings_shift() {
    let mut session = Hotswappo::new(b"layout.iml".to_vec(), sample_state());
    session.get(1, BUTTON_LAYOUT.as_bytes().to_vec()).unwrap();
    let p = button_path();
    {
        let file = session.layout.as_mut().unwrap();
        file.view().unwrap();
        file.widget_states
            .set(&p, WidgetState::Button(ButtonState { pressed: true }))
            .unwrap();
    }
    // The edit removes the first sibling, so a different button now
    // occupies child index 2 only if one is added; here the button
    // shifts to index 1 and a fresh record is created for it.
    let edited = "Root(Column([Text(\"world\"),Button(Text(\"button\"),\"Testaroo\")]))";
    session.get(2, edited.as_bytes().to_vec()).unwrap();
    let file = session.layout.as_mut().unwrap();
    let render = file.view().unwrap();
    match render {
        RenderNode::Column(children) => match &children[1] {
            RenderNode::Button { pressed, .. } => assert!(!*pressed),
            other => panic!("expected a button, got {:?}", other),
        },
        other => panic!("expected a column, got {:?}", other),
    }
    // The stale record at the old path is untouched dead weight.
    assert_eq!(
        file.widget_states.get(&p),
        Some(WidgetState::Button(ButtonState { pressed: true }))
    );
}

#[test]
fn state_survives_reload_in_value() {
    let mut session = Hotswappo::new(b"layout.iml".to_vec(), sample_state());
    session.get(1, MIXED_LAYOUT.as_bytes().to_vec()).unwrap();
    {
        let file = session.layout.as_mut().unwrap();
        file.view().unwrap();
        file.state().set(
            b"slider_val".to_vec(),
            Value::Num(Fixed { thousandths: 42_500 }),
        );
    }
    session.get(2, MIXED_LAYOUT.as_bytes().to_vec()).unwrap();
    let file = session.layout.as_mut().unwrap();
    match file.state().get(&b"slider_val".to_vec()).unwrap() {
        Value::Num(x) => assert_eq!(*x, Fixed { thousandths: 42_500 }),
        other => panic!("unexpected value {:?}", other),
    }
    // The template placeholder was re-bound against the carried state.
    let render = file.view().unwrap();
    match render {
        RenderNode::Column(children) => match &children[2] {
            RenderNode::Slider { value, range_hi, .. } => {
                assert_eq!(*value, Fixed { thousandths: 42_500 });
                assert_eq!(*range_hi, Fixed { thousandths: 42_500 });
            },
            other => panic!("expected a slider, got {:?}", other),
        },
        other => panic!("expected a column, got {:?}", other),
    }
}

#[test]
fn subscription_asks_for_a_periodic_wake() {
    let session = Hotswappo::new(b"layout.iml".to_vec(), sample_state());
    assert_eq!(session.subscription(), 500);
}
