use lead_build::stringdecode::{string_decode, StringType};

#[test]
fn decode_empty() {
    assert_eq!(string_decode(""), Some(vec![]))
}

#[test]
fn decode_simple() {
    assert_eq!(string_decode("test"), Some(vec![StringType::Str("test".into())]))
}

#[test]
fn decode_expr() {
    assert_eq!(string_decode("${code}"), Some(vec![StringType::Expr("code".into())]))
}

#[test]
fn decode_str_code_str() {
    assert_eq!(
        string_decode("abc${def}ghi"),
        Some(vec![
            StringType::Str("abc".into()),
            StringType::Expr("def".into()),
            StringType::Str("ghi".into()),
        ])
    )
}

#[test]
fn decode_code_code() {
    assert_eq!(
        string_decode("${abc}${def}"),
        Some(vec![StringType::Expr("abc".into()), StringType::Expr("def".into())])
    )
}
