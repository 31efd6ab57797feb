use iml::num::Fixed;
use iml::parse::{parse_root, SchemaError};
use iml::tree::{serialize_root, Element, Root};

fn sample_root() -> Root {
    Root {
        root: Element::Column(vec![
            Element::Text(b"hello".to_vec()),
            Element::Text(b"world".to_vec()),
            Element::Button {
                content: Box::new(Element::Text(b"button".to_vec())),
                callback_name: b"Testaroo".to_vec(),
            },
            Element::Slider {
                value_name: b"test".to_vec(),
                range_lo: Fixed { thousandths: 0 },
                range_hi: Fixed { thousandths: 100_000 },
                callback_name: b"TestarooTwo".to_vec(),
            },
        ]),
    }
}

#[test]
fn print_sample_iml() {
    println!("{}", String::from_utf8(serialize_root(&sample_root())).unwrap());
}

#[test]
fn round_trip_sample() {
    let root = sample_root();
    let text = serialize_root(&root);
    assert_eq!(
        String::from_utf8(text.clone()).unwrap(),
        "Root(Column([Text(\"hello\"),Text(\"world\"),Button(Text(\"button\"),\"Testaroo\"),Slider(\"test\",0.0..=100.0,\"TestarooTwo\")]))"
    );
    let back = parse_root(&text).unwrap();
    assert_eq!(back, root);
}

#[test]
fn round_trip_nested_rows() {
    let root = Root {
        root: Element::Row(vec![
            Element::Column(vec![]),
            Element::Row(vec![Element::Text(b"a".to_vec())]),
            Element::Button {
                content: Box::new(Element::Row(vec![Element::Text(b"x".to_vec())])),
                callback_name: b"Go".to_vec(),
            },
        ]),
    };
    let text = serialize_root(&root);
    let back = parse_root(&text).unwrap();
    assert_eq!(back, root);
}

#[test]
fn unknown_variant_is_rejected() {
    let text = b"Root(Zoot([]))".to_vec();
    assert_eq!(parse_root(&text).unwrap_err(), SchemaError::UnknownVariant);
}

#[test]
fn unterminated_is_rejected() {
    let text = b"Root(Column([Text(\"hello\")".to_vec();
    assert_eq!(parse_root(&text).unwrap_err(), SchemaError::Unterminated);
}

#[test]
fn bad_number_is_rejected() {
    let text = b"Root(Slider(\"v\",0.1234..=1.0,\"Cb\"))".to_vec();
    assert_eq!(parse_root(&text).unwrap_err(), SchemaError::BadNumber);
}

#[test]
fn reversed_range_is_rejected() {
    let text = b"Root(Slider(\"v\",5.0..=1.0,\"Cb\"))".to_vec();
    assert_eq!(parse_root(&text).unwrap_err(), SchemaError::MalformedRange);
}

#[test]
fn trailing_bytes_are_rejected() {
    let text = b"Root(Text(\"x\"))y".to_vec();
    assert_eq!(parse_root(&text).unwrap_err(), SchemaError::Trailing);
}

#[test]
fn fixed_notation_round_trips() {
    let cases: Vec<(u64, &str)> = vec![
        (0, "0.0"),
        (42_500, "42.5"),
        (37_000, "37.0"),
        (100_000, "100.0"),
        (1_234, "1.234"),
        (1_230, "1.23"),
        (1_200, "1.2"),
        (5, "0.005"),
    ];
    for (thousandths, text) in cases {
        let x = Fixed { thousandths };
        assert_eq!(String::from_utf8(x.to_bytes()).unwrap(), text);
        let bytes = x.to_bytes();
        let (back, used) = iml::num::parse_fixed(&bytes, 0).unwrap();
        assert_eq!(back, x);
        assert_eq!(used, bytes.len());
    }
}
