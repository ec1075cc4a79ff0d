use fux::json::{base64, Json};

#[test]
fn json_escapes_and_nests() {
    let value = Json::Object(vec![
        ("a", Json::str("q\"\\\n\u{1}界")),
        (
            "b",
            Json::Array(vec![Json::Number(-3), Json::Bool(true), Json::Null]),
        ),
    ]);
    assert_eq!(
        value.render(),
        r#"{"a":"q\"\\\n\u0001界","b":[-3,true,null]}"#
    );
}

#[test]
fn base64_matches_the_standard_vectors() {
    for (input, output) in [
        ("", ""),
        ("f", "Zg=="),
        ("fo", "Zm8="),
        ("foo", "Zm9v"),
        ("foob", "Zm9vYg=="),
        ("fooba", "Zm9vYmE="),
        ("foobar", "Zm9vYmFy"),
    ] {
        assert_eq!(base64(input.as_bytes()), output);
    }
}

#[test]
fn json_numbers_and_separators_escape_as_json_does() {
    assert_eq!(Json::Number(i64::MIN).render(), "-9223372036854775808");
    assert_eq!(Json::Number(0).render(), "0");
    assert_eq!(Json::str("\u{7f}\u{2028}\u{2029}\t\r").render(), "\"\\u007f\\u2028\\u2029\\t\\r\"");
    assert_eq!(Json::Array(vec![]).render(), "[]");
    assert_eq!(Json::Object(vec![]).render(), "{}");
    assert_eq!(base64(&[0xff, 0xfe, 0xfd, 0xfc]), "//79/A==");
}

#[test]
fn base64_pads_with_exactly_the_missing_bytes_and_uses_only_its_alphabet() {
    for n in 0..10usize {
        let bytes: Vec<u8> = (0..n).map(|i| (i * 37 + 200) as u8).collect();
        let text = base64(&bytes);
        assert_eq!(text.len(), 4 * ((n + 2) / 3));
        let padding = (3 - n % 3) % 3;
        let body = text.len() - padding;
        assert!(text[body..].chars().all(|c| c == '='), "{n}: {text}");
        assert!(
            text[..body].chars().all(|c| c.is_ascii_alphanumeric() || c == '+' || c == '/'),
            "{n}: {text}"
        );
    }
}
