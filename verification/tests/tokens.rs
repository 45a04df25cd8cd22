use lead_build::lang::parser::{kind_of, tokenize, unescape_str, TokKind};

fn kinds(code: &str) -> Vec<TokKind> {
    tokenize(code, 0).unwrap().iter().map(|t| kind_of(&t.tok)).collect()
}

#[test]
fn tokens_longest_punctuation() {
    assert_eq!(
        kinds("a == b != c <- d -> e ... f"),
        vec![
            TokKind::Ident,
            TokKind::EqEq,
            TokKind::Ident,
            TokKind::Neq,
            TokKind::Ident,
            TokKind::Arrow,
            TokKind::Ident,
            TokKind::Impl,
            TokKind::Ident,
            TokKind::Ellipsis,
            TokKind::Ident,
        ]
    );
}

#[test]
fn tokens_keywords_need_a_word_boundary() {
    assert_eq!(kinds("let lets in"), vec![TokKind::Let, TokKind::Ident, TokKind::In]);
}

#[test]
fn tokens_skip_comments_to_end_of_line() {
    assert_eq!(kinds("1 # 2 3\n4"), vec![TokKind::Int, TokKind::Int]);
}

#[test]
fn tokens_spans_cover_token_text() {
    let toks = tokenize("  abc \"x\\\"y\"", 0).unwrap();
    assert_eq!((toks[0].left, toks[0].right), (2, 5));
    assert_eq!((toks[1].left, toks[1].right), (6, 12));
}

#[test]
fn tokens_unterminated_string_is_an_error() {
    assert!(tokenize("\"abc", 0).is_err());
    assert!(tokenize("a & b", 0).is_err());
}

#[test]
fn unescape_replaces_escapes() {
    assert_eq!(unescape_str("a\\nb\\u0041\\\"c\\q").unwrap(), "a\nbA\"cq");
    assert_eq!(unescape_str("x\\").unwrap(), "x\\");
    assert!(unescape_str("\\uD800").is_err());
    assert!(unescape_str("\\u12").is_err());
    assert!(unescape_str("\\u12G4").is_err());
}
