use tsrust::lexer::{Lexer, TokKind};

#[test]
fn tokenizes_keywords_punctuation_and_skips_comments() {
    let src = r#"
            // leading comment
            export const add = move (x: i32, y?: i32) => "ok";
            /* trailing comment */
        "#;

    let kinds = Lexer::new(src)
        .tokenize()
        .into_iter()
        .map(|t| t.kind)
        .collect::<Vec<_>>();

    assert_eq!(
        kinds,
        vec![
            TokKind::Export,
            TokKind::Const,
            TokKind::Ident("add".into()),
            TokKind::Eq,
            TokKind::Move,
            TokKind::LParen,
            TokKind::Ident("x".into()),
            TokKind::Colon,
            TokKind::Ident("i32".into()),
            TokKind::Comma,
            TokKind::Ident("y".into()),
            TokKind::Question,
            TokKind::Colon,
            TokKind::Ident("i32".into()),
            TokKind::RParen,
            TokKind::FatArrow,
            TokKind::Str("ok".into()),
            TokKind::Semicolon,
        ]
    );
}

#[test]
fn preserves_token_spans_for_strings_and_numbers() {
    let src = r#"let value = "hi"; 123_456"#;
    let tokens = Lexer::new(src).tokenize();

    assert_eq!(tokens[0].span.start, 0);
    assert_eq!(tokens[0].span.end, 3);
    assert_eq!(&src[tokens[3].span.start..tokens[3].span.end], "\"hi\"");
    assert_eq!(&src[tokens[5].span.start..tokens[5].span.end], "123_456");
}
