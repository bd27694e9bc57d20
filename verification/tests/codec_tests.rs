use r18::codec::{decode, encode, split_key, CodecError, Doc};
use r18::strmap::StrMap;

fn smap(pairs: &[(&str, &str)]) -> StrMap {
    let mut m = StrMap::new();
    for (k, v) in pairs {
        m.insert(k.to_string(), v.to_string());
    }
    m
}

fn leaf(s: &str) -> Doc {
    Doc::Leaf(s.to_string())
}

fn node(kids: Vec<(&str, Doc)>) -> Doc {
    Doc::Node(kids.into_iter().map(|(k, d)| (k.to_string(), d)).collect())
}

#[test]
fn extract_value_test() {
    let doc = node(vec![
        ("Hello, {}", leaf("你好，{}")),
        ("Debug: {:?}", leaf("调试：{:?}")),
        ("{} is typing", leaf("{} 正在输入")),
        ("evil", node(vec![("{} is typing", leaf("{} 正在女装"))])),
    ]);

    let got = decode(&doc).unwrap();
    let expected = [
        (" Hello, {}", "你好，{}"),
        (" Debug: {:?}", "调试：{:?}"),
        (" {} is typing", "{} 正在输入"),
        (".evil {} is typing", "{} 正在女装"),
    ];
    assert_eq!(got.len(), expected.len());
    for (k, v) in expected {
        assert_eq!(got.get(&k.to_string()).unwrap().as_str(), v);
    }
}

#[test]
fn test_generate() {
    let json = node(vec![
        ("Hello, {}", leaf("你好，{}")),
        ("Debug: {:?}", leaf("调试：{:?}")),
        ("{} is typing", leaf("{} 正在输入")),
        ("First sentence. Second sentence.", leaf("第一句话。第二句话。")),
        ("evil", node(vec![("{} is typing", leaf("{} 正在女装"))])),
    ]);

    let translation = smap(&[
        (" Hello, {}", "你好，{}"),
        (" Debug: {:?}", "调试：{:?}"),
        (" {} is typing", "{} 正在输入"),
        (" First sentence. Second sentence.", "第一句话。第二句话。"),
        (".evil {} is typing", "{} 正在女装"),
    ]);

    assert_eq!(json, encode(&translation).unwrap());
}

#[test]
fn round_trip_deep_paths() {
    let m = smap(&[
        (".menu.file Open, {}", "Ouvrir, {}"),
        (".menu.file Close", "Fermer"),
        (".menu Edit", "Modifier"),
        (" Quit", "Quitter"),
        (" Spaces and. dots, {}", "Espaces et. points, {}"),
    ]);
    let doc = encode(&m).unwrap();
    let back = decode(&doc).unwrap();
    assert_eq!(back.len(), m.len());
    for (k, v) in &m.pairs {
        assert_eq!(back.get(k).unwrap(), v);
    }
}

#[test]
fn encode_rejects_key_without_space() {
    let m = smap(&[("nospace", "x")]);
    assert_eq!(encode(&m).unwrap_err(), CodecError::MalformedKey);
}

#[test]
fn encode_rejects_bad_prefix_shapes() {
    // a prefix that does not start with the separator
    let m = smap(&[("menu Open", "x")]);
    assert_eq!(encode(&m).unwrap_err(), CodecError::MalformedKey);
    // an empty structural segment
    let m2 = smap(&[("..menu Open", "x")]);
    assert_eq!(encode(&m2).unwrap_err(), CodecError::MalformedKey);
    let m3 = smap(&[(".menu. Open", "x")]);
    assert_eq!(encode(&m3).unwrap_err(), CodecError::MalformedKey);
}

#[test]
fn encode_rejects_path_conflict() {
    let m = smap(&[(".menu open", "a"), (".menu.open deeper", "b")]);
    assert_eq!(encode(&m).unwrap_err(), CodecError::PathConflict);
    let m2 = smap(&[(".menu.open deeper", "b"), (".menu open", "a")]);
    assert_eq!(encode(&m2).unwrap_err(), CodecError::PathConflict);
}

#[test]
fn decode_rejects_scalar() {
    let doc = node(vec![("ok", leaf("fine")), ("bad", Doc::Scalar)]);
    assert_eq!(decode(&doc).unwrap_err(), CodecError::NonLeafScalar);
    assert_eq!(decode(&Doc::Scalar).unwrap_err(), CodecError::NonLeafScalar);
    assert_eq!(decode(&leaf("bare")).unwrap_err(), CodecError::NonLeafScalar);
}

#[test]
fn split_key_parts() {
    let (segs, content) = split_key(&".menu.file Open, {}".to_string()).unwrap();
    assert_eq!(segs, vec!["menu".to_string(), "file".to_string()]);
    assert_eq!(content, "Open, {}");

    let (segs2, content2) = split_key(&" Hello".to_string()).unwrap();
    assert!(segs2.is_empty());
    assert_eq!(content2, "Hello");

    assert!(split_key(&"nospace".to_string()).is_none());
    assert!(split_key(&"plain.dotted text".to_string()).is_none());
}
