use ark_story_plaintext::lexer::{extract_param, tokenize_line, Token};

// --- tokenize_line tests ---

#[test]
fn plain_text() {
    let tokens = tokenize_line("她坐在树桩上一边哼着歌");
    assert_eq!(tokens, vec![Token::Text("她坐在树桩上一边哼着歌".into())]);
}

#[test]
fn empty_line() {
    assert_eq!(tokenize_line(""), vec![]);
    assert_eq!(tokenize_line("   "), vec![]);
}

#[test]
fn name_dialogue() {
    let tokens = tokenize_line(r#"[name="锡人"]呼......熟悉的气味"#);
    assert_eq!(
        tokens,
        vec![
            Token::Tag {
                name: "name".into(),
                raw_inner: r#"name="锡人""#.into()
            },
            Token::Text("呼......熟悉的气味".into()),
        ]
    );
}

#[test]
fn simple_tag_no_params() {
    let tokens = tokenize_line("[Dialog]");
    assert_eq!(
        tokens,
        vec![Token::Tag {
            name: "dialog".into(),
            raw_inner: "Dialog".into()
        }]
    );
}

#[test]
fn tag_case_insensitive() {
    let tokens = tokenize_line("[HEADER(key=\"test\")]");
    assert_eq!(tokens[0], Token::Tag {
        name: "header".into(),
        raw_inner: "HEADER(key=\"test\")".into(),
    });
}

#[test]
fn tag_with_parens() {
    let tokens = tokenize_line("[Delay(time=1)]");
    assert_eq!(
        tokens,
        vec![Token::Tag {
            name: "delay".into(),
            raw_inner: "Delay(time=1)".into()
        }]
    );
}

#[test]
fn subtitle_tag() {
    let tokens = tokenize_line(r#"[Subtitle(text="hello world", x=300)]"#);
    assert_eq!(tokens.len(), 1);
    if let Token::Tag { name, raw_inner } = &tokens[0] {
        assert_eq!(name, "subtitle");
        assert!(raw_inner.contains("hello world"));
    } else {
        panic!("expected Tag");
    }
}

#[test]
fn sticker_with_html() {
    let line = r#"[Sticker(id="st1", text="<i>hello</i>", x=320)]"#;
    let tokens = tokenize_line(line);
    assert_eq!(tokens.len(), 1);
    if let Token::Tag { name, raw_inner } = &tokens[0] {
        assert_eq!(name, "sticker");
        assert!(raw_inner.contains("<i>hello</i>"));
    } else {
        panic!("expected Tag");
    }
}

#[test]
fn quoted_string_containing_bracket() {
    // Hypothetical: `]` inside quoted string must not end the tag.
    let line = r#"[Tag(text="a]b")]"#;
    let tokens = tokenize_line(line);
    assert_eq!(tokens.len(), 1);
    if let Token::Tag { raw_inner, .. } = &tokens[0] {
        assert!(raw_inner.contains("a]b"));
    } else {
        panic!("expected Tag");
    }
}

#[test]
fn multiple_tags_on_one_line() {
    let tokens = tokenize_line("[Dialog][Blocker(a=1)]");
    assert_eq!(tokens.len(), 2);
    assert_eq!(tokens[0], Token::Tag {
        name: "dialog".into(),
        raw_inner: "Dialog".into(),
    });
    assert_eq!(tokens[1], Token::Tag {
        name: "blocker".into(),
        raw_inner: "Blocker(a=1)".into(),
    });
}

#[test]
fn trailing_whitespace_only() {
    let tokens = tokenize_line("[Dialog]   ");
    assert_eq!(tokens.len(), 1);
    assert_eq!(tokens[0], Token::Tag {
        name: "dialog".into(),
        raw_inner: "Dialog".into(),
    });
}

#[test]
fn multiline_tag_with_trailing_text() {
    let line = r#"[multiline(name="缪尔赛思")]......塞雷娅！"#;
    let tokens = tokenize_line(line);
    assert_eq!(tokens.len(), 2);
    assert_eq!(tokens[0], Token::Tag {
        name: "multiline".into(),
        raw_inner: r#"multiline(name="缪尔赛思")"#.into(),
    });
    assert_eq!(tokens[1], Token::Text("......塞雷娅！".into()));
}

#[test]
fn chinese_quotes_in_text_param() {
    // Chinese quotes \u{201c} \u{201d} are NOT ASCII " — they don't affect parsing.
    let line = format!(
        "[Subtitle(text=\"\u{201c}\u{201d}\u{201c}家\u{201d}\")]"
    );
    let tokens = tokenize_line(&line);
    assert_eq!(tokens.len(), 1);
    if let Token::Tag { raw_inner, .. } = &tokens[0] {
        assert!(raw_inner.contains("\u{201c}家\u{201d}"));
    } else {
        panic!("expected Tag");
    }
}

// --- extract_param tests ---

#[test]
fn extract_text_param() {
    let inner = r#"Subtitle(text="hello world", x=300)"#;
    assert_eq!(extract_param(inner, "text"), Some("hello world".into()));
}

#[test]
fn extract_with_variable_spacing() {
    let inner = r#"Sticker(id="st1", multi = true, text="abc")"#;
    assert_eq!(extract_param(inner, "multi"), Some("true".into()));
    assert_eq!(extract_param(inner, "text"), Some("abc".into()));
    assert_eq!(extract_param(inner, "id"), Some("st1".into()));
}

#[test]
fn extract_missing_param() {
    let inner = r#"Sticker(id="st1",duration=1)"#;
    assert_eq!(extract_param(inner, "text"), None);
}

#[test]
fn extract_name_from_name_tag() {
    let inner = r#"name="锡人""#;
    assert_eq!(extract_param(inner, "name"), Some("锡人".into()));
}

#[test]
fn extract_name_from_multiline_tag() {
    let inner = r#"multiline(name="缪尔赛思")"#;
    assert_eq!(extract_param(inner, "name"), Some("缪尔赛思".into()));
}

#[test]
fn extract_unquoted_numeric() {
    let inner = "Delay(time=1.5)";
    assert_eq!(extract_param(inner, "time"), Some("1.5".into()));
}

#[test]
fn extract_param_not_substring_match() {
    // "id" should not match "width"
    let inner = r#"Sticker(id="st1", width=700)"#;
    assert_eq!(extract_param(inner, "id"), Some("st1".into()));
    assert_eq!(extract_param(inner, "width"), Some("700".into()));
}

#[test]
fn extract_text_with_html() {
    let inner = r#"Sticker(id="st1", text="<i>hello</i>")"#;
    assert_eq!(extract_param(inner, "text"), Some("<i>hello</i>".into()));
}

#[test]
fn extract_text_with_escaped_newline() {
    let inner = r#"Subtitle(text="line1\nline2")"#;
    assert_eq!(extract_param(inner, "text"), Some(r"line1\nline2".into()));
}
