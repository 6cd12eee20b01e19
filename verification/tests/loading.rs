use skill_extractor::{
    decode_layers, decode_le_words, decode_weights, KeywordMatcher, LayerSpec, LoadError, MlpSpec,
};

#[test]
fn gazetteer_from_json() {
    let m = KeywordMatcher::from_json("[\"Python\", \"Docker\", \"REST APIs\"]").unwrap();
    assert_eq!(
        m.extract("python, rest apis and docker"),
        vec![
            ("python".to_string(), 0, 6),
            ("rest apis".to_string(), 8, 17),
            ("docker".to_string(), 22, 28)
        ]
    );
}

#[test]
fn gazetteer_must_be_a_string_array() {
    assert!(matches!(KeywordMatcher::from_json("{\"a\": 1}"), Err(LoadError::InvalidGazetteer(_))));
    assert!(matches!(KeywordMatcher::from_json("[1, 2]"), Err(LoadError::InvalidGazetteer(_))));
    assert!(matches!(KeywordMatcher::from_json("not json"), Err(LoadError::InvalidGazetteer(_))));
}

#[test]
fn little_endian_words() {
    assert_eq!(decode_le_words(&[1, 0, 0, 0, 0, 0, 0x80, 0x3f, 9]), vec![1, 0x3f80_0000]);
    assert_eq!(decode_le_words(&[0xff, 0xff, 0xff, 0xff]), vec![u32::MAX]);
    assert_eq!(decode_le_words(&[1, 2, 3]), Vec::<u32>::new());
}

#[test]
fn weights_decode_to_f32_bits() {
    let w = decode_weights("AACAPw==").unwrap();
    assert_eq!(w, vec![0x3f80_0000]);
    assert_eq!(f32::from_bits(w[0]), 1.0f32);
    assert_eq!(decode_weights("AQAAAAAAAMAH").unwrap(), vec![1, 0xc000_0000]);
    assert!(decode_weights("!!!!").is_err());
    assert!(decode_weights("AACAPw").is_err());
}

fn layer(w: &str, b: &str) -> LayerSpec {
    LayerSpec { shape: [1, 1], weights_b64: w.to_string(), bias_b64: b.to_string() }
}

#[test]
fn layers_decode() {
    let spec = MlpSpec {
        format: "mlp-weights-v1".to_string(),
        layers: vec![layer("AACAPw==", "AQAAAAAAAMAH")],
    };
    let layers = decode_layers(&spec).unwrap();
    assert_eq!(layers.len(), 1);
    assert_eq!(layers[0].rows, 1);
    assert_eq!(layers[0].cols, 1);
    assert_eq!(layers[0].w, vec![0x3f80_0000]);
    assert_eq!(layers[0].b, vec![1, 0xc000_0000]);
}

#[test]
fn unsupported_weights_format() {
    let spec = MlpSpec { format: "mlp-weights-v2".to_string(), layers: vec![] };
    match decode_layers(&spec) {
        Err(LoadError::UnsupportedFormat(f)) => assert_eq!(f, "mlp-weights-v2"),
        _ => panic!("expected an unsupported format"),
    }
}

#[test]
fn invalid_base64_in_layer() {
    let spec = MlpSpec {
        format: "mlp-weights-v1".to_string(),
        layers: vec![layer("AACAPw==", "AACAPw=="), layer("AACAPw==", "***")],
    };
    assert!(matches!(decode_layers(&spec), Err(LoadError::InvalidBase64(_))));
}
