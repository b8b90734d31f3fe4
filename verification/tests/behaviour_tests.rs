use ark_story_plaintext::lexer::{extract_param, tokenize_line, Token};
use ark_story_plaintext::parser::{expand_escape_newlines, parse, strip_xml_tags, Event};
use ark_story_plaintext::renderer::render;
use ark_story_plaintext::story::compile_story;

fn source_of(tokens: &[Token]) -> String {
    let mut s = String::new();
    for t in tokens {
        match t {
            Token::Tag { raw_inner, .. } => {
                s.push('[');
                s.push_str(raw_inner);
                s.push(']');
            }
            Token::Text(x) => s.push_str(x),
        }
    }
    s
}

#[test]
fn tokenize_is_lossless() {
    let lines = [
        "[name=\"锡人\"]呼......熟悉的气味",
        "[Dialog][Blocker(a=1)]",
        "[Tag(text=\"a]b\")] tail  ",
        "plain words",
        "[Dialog][Delay(time=1)]after",
    ];
    for line in lines {
        let tokens = tokenize_line(line);
        assert_eq!(source_of(&tokens), line.trim_end());
        for t in &tokens[..tokens.len() - 1] {
            assert!(matches!(t, Token::Tag { .. }));
        }
    }
}

#[test]
fn tokenize_unclosed_tag() {
    let tokens = tokenize_line("[Dialog(x=1");
    assert_eq!(
        tokens,
        vec![Token::Tag { name: "dialog".into(), raw_inner: "Dialog(x=1".into() }]
    );
    assert_eq!(source_of(&tokens), "[Dialog(x=1]");
}

#[test]
fn tokenize_trims_unicode_white_space() {
    assert_eq!(tokenize_line("[Dialog]\u{3000}\t"), vec![Token::Tag {
        name: "dialog".into(),
        raw_inner: "Dialog".into()
    }]);
    assert_eq!(tokenize_line("abc\u{3000}"), vec![Token::Text("abc".into())]);
    assert_eq!(tokenize_line("\u{3000}\u{a0}"), vec![]);
}

#[test]
fn tokenize_lowercases_non_ascii_names() {
    let tokens = tokenize_line("[ÄBC(x=1)]");
    assert_eq!(tokens, vec![Token::Tag { name: "äbc".into(), raw_inner: "ÄBC(x=1)".into() }]);
}

#[test]
fn tokenize_name_stops_at_white_space() {
    let tokens = tokenize_line("[Dialog x=1]");
    assert_eq!(tokens, vec![Token::Tag { name: "dialog".into(), raw_inner: "Dialog x=1".into() }]);
}

#[test]
fn tokenize_escaped_quote_keeps_tag_open() {
    let tokens = tokenize_line(r#"[Tag(text="a\"]b")]c"#);
    assert_eq!(tokens.len(), 2);
    assert_eq!(tokens[0], Token::Tag { name: "tag".into(), raw_inner: r#"Tag(text="a\"]b")"#.into() });
    assert_eq!(tokens[1], Token::Text("c".into()));
}

#[test]
fn extract_escaped_quote() {
    assert_eq!(extract_param(r#"Tag(text="say \"hi\"")"#, "text"), Some("say \"hi\"".into()));
}

#[test]
fn extract_absent_key_is_none() {
    assert_eq!(extract_param(r#"Sticker(id="st1", x=3)"#, "zzz"), None);
    assert_eq!(extract_param("", "text"), None);
}

#[test]
fn extract_unterminated_quote() {
    assert_eq!(extract_param("Tag(text=\"abc", "text"), Some("abc".into()));
}

#[test]
fn extract_skips_occurrence_without_equals() {
    assert_eq!(extract_param("name foo, name=bar", "name"), Some("bar".into()));
}

#[test]
fn extract_missing_value_is_none() {
    assert_eq!(extract_param("Tag(text=", "text"), None);
    assert_eq!(extract_param("Tag(text=   ", "text"), None);
}

#[test]
fn strip_laws_on_samples() {
    for s in ["a<b", "a>b", "<i>x</i>y", "<<a>b>c", "plain", "", "<"] {
        let once = strip_xml_tags(s);
        assert!(!once.contains('<'));
        assert_eq!(strip_xml_tags(&once), once);
        if !s.contains('<') {
            assert_eq!(once, s);
        }
    }
    assert_eq!(strip_xml_tags("a<b"), "a");
    assert_eq!(strip_xml_tags("a>b"), "a>b");
    assert_eq!(strip_xml_tags("<<a>b>c"), "b>c");
}

#[test]
fn expand_laws_on_samples() {
    assert_eq!(expand_escape_newlines(r"\\n"), "\\\n");
    assert_eq!(expand_escape_newlines(r"a\"), "a\\");
    assert_eq!(expand_escape_newlines(r"\n\n"), "\n\n");
    for s in [r"\\n", r"a\nb\n", r"\\\n", r"\x\n"] {
        assert!(!expand_escape_newlines(s).contains("\\n"));
    }
    assert_eq!(expand_escape_newlines(r"a\tb"), r"a\tb");
}

#[test]
fn parse_crlf_lines() {
    let events = parse("line1\r\nline2\r\n\r\nline3");
    assert_eq!(
        events,
        vec![
            Event::Narration("line1".into()),
            Event::Narration("line2".into()),
            Event::Narration("line3".into()),
        ]
    );
}

#[test]
fn parse_white_space_line_is_narration() {
    assert_eq!(parse("   "), vec![Event::Narration("   ".into())]);
}

#[test]
fn parse_uppercase_tag_names() {
    let events = parse("[MultiLine(name=\"A\")]hi\n[SUBTITLE(text=\"s\")]\n[STICKER(text=\"t\")]");
    assert_eq!(parse("[NAME=\"A\"]hi"), vec![]);
    assert_eq!(
        events,
        vec![
            Event::Dialogue { speaker: "A".into(), text: "hi".into() },
            Event::Subtitle("s".into()),
            Event::Sticker("t".into()),
        ]
    );
}

#[test]
fn parse_lone_bracket_and_other_tags() {
    assert_eq!(parse("["), vec![]);
    assert_eq!(parse("[]"), vec![]);
    assert_eq!(parse("[nothing(a=1)]text"), vec![]);
    assert_eq!(parse("[Music(key=\"x\")]"), vec![]);
}

#[test]
fn parse_dialogue_needs_text_and_speaker() {
    assert_eq!(parse("[name=\"A\"]"), vec![]);
    assert_eq!(parse("[name=\"A\"]   "), vec![]);
    assert_eq!(parse("[multiline]text"), vec![]);
}

#[test]
fn parse_dialogue_text_after_several_tags() {
    let events = parse("[name=\"A\"][Delay(time=1)]<i>hi</i>  ");
    assert_eq!(events, vec![Event::Dialogue { speaker: "A".into(), text: "hi".into() }]);
}

#[test]
fn parse_multi_flag_ignores_ascii_case() {
    let input = "[Sticker(id=\"a\", multi=TRUE, text=\"x\")]\n[Sticker(id=\"a\", multi = True, text=\"y\")]\n[Sticker(id=\"a\")]";
    assert_eq!(parse(input), vec![Event::Sticker("xy".into())]);
}

#[test]
fn parse_unclosed_stickers_flush_in_id_order() {
    let input = "[Sticker(id=\"b\", multi=true, text=\"second\")]\n[Sticker(id=\"a\", multi=true, text=\"first\")]\n[Sticker(id=\"ab\", multi=true, text=\"middle\")]";
    assert_eq!(
        parse(input),
        vec![
            Event::Sticker("first".into()),
            Event::Sticker("middle".into()),
            Event::Sticker("second".into()),
        ]
    );
}

#[test]
fn parse_closing_unknown_id_is_ignored() {
    assert_eq!(parse("[Sticker(id=\"zz\")]"), vec![]);
}

#[test]
fn parse_multi_without_id_is_dropped() {
    assert_eq!(parse("[Sticker(multi=true, text=\"x\")]"), vec![]);
}

#[test]
fn parse_closed_sticker_is_not_flushed_again() {
    let input = "[Sticker(id=\"a\", multi=true, text=\"x\")]\n[Sticker(id=\"a\")]\n[Sticker(id=\"a\")]";
    assert_eq!(parse(input), vec![Event::Sticker("x".into())]);
}

#[test]
fn parse_output_is_free_of_markup() {
    let input = "a<i>b</i>\n[name=\"<S>\"]<b>t</b>\n[Subtitle(text=\"<i>x\\ny</i>\")]\n[Sticker(id=\"k\", multi=true, text=\"<i>p\\n\")]";
    let events = parse(input);
    assert_eq!(
        events,
        vec![
            Event::Narration("ab".into()),
            Event::Dialogue { speaker: "<S>".into(), text: "t".into() },
            Event::Subtitle("x\ny".into()),
            Event::Sticker("p\n".into()),
        ]
    );
    for e in &events {
        match e {
            Event::Narration(t) | Event::Subtitle(t) | Event::Sticker(t) => {
                assert!(!t.contains('<'));
                assert!(!t.contains("\\n"));
            }
            Event::Dialogue { text, .. } => assert!(!text.contains('<')),
        }
    }
}

#[test]
fn render_concat_law() {
    let a = vec![Event::Narration("x".into()), Event::Subtitle("s\nt".into())];
    let b = vec![Event::Dialogue { speaker: "A".into(), text: "y".into() }];
    let mut ab = a.clone();
    ab.extend(b.clone());
    assert_eq!(render(&ab), format!("{}\n\n{}", render(&a), render(&b)));
}

#[test]
fn render_narration_escape_only_at_start() {
    assert_eq!(render(&[Event::Narration("a>b".into())]), "a>b");
    assert_eq!(render(&[Event::Narration(">".into())]), "\\>");
    assert_eq!(render(&[Event::Narration("".into())]), "");
}

#[test]
fn render_quote_rows() {
    assert_eq!(render(&[Event::Subtitle("a\r\nb".into())]), "> a\n> b");
    assert_eq!(render(&[Event::Sticker("a\n".into())]), "> a");
    assert_eq!(render(&[Event::Sticker("".into())]), "");
    assert_eq!(render(&[Event::Subtitle("a\n\n".into())]), "> a\n> ");
    let out = render(&[Event::Subtitle("x\ny\n\nz".into())]);
    for row in out.split('\n') {
        assert!(row.starts_with("> "));
    }
}

#[test]
fn render_dialogue_with_empty_speaker() {
    let events = vec![Event::Dialogue { speaker: "".into(), text: "t".into() }];
    assert_eq!(render(&events), "\u{FF1A}t");
}

#[test]
fn compile_story_joins_scripts() {
    let a = "[name=\"A\"]hi\nprose".to_string();
    let b = "[Subtitle(text=\"s\")]".to_string();
    let both = compile_story(&vec![a.clone(), b.clone()]);
    assert_eq!(both, "A\u{FF1A}hi\n\nprose\n\n> s");
    assert_eq!(both, format!("{}\n\n{}", render(&parse(&a)), render(&parse(&b))));
    assert_eq!(compile_story(&vec![a.clone()]), render(&parse(&a)));
    assert_eq!(compile_story(&vec![]), "");
}

#[test]
fn compile_story_keeps_empty_scripts() {
    assert_eq!(compile_story(&vec!["x".to_string(), "".to_string(), "y".to_string()]), "x\n\n\n\ny");
}

#[test]
fn parse_unrecognized_lines_give_nothing() {
    let input = "\n[Blocker(a=1)]\n\n[charslot]\r\n[Dialog]\n[Delay(time=1)]\n[Decision(options=\"a;b\",values=\"1;2\")]\n[names=\"x\"]y";
    assert_eq!(parse(input), vec![]);
}

#[test]
fn parse_concat_law() {
    let pairs = [
        ("[name=\"A\"]hi\nprose", "[Subtitle(text=\"s\")]\nmore"),
        ("", "x"),
        ("a\n", "b"),
        ("[Sticker(id=\"k\", text=\"one\")]", "[Sticker(id=\"k\")]\n<i>n</i>"),
    ];
    for (a, b) in pairs {
        let mut both = parse(a);
        both.extend(parse(b));
        assert_eq!(parse(&format!("{}\n{}", a, b)), both);
    }
}

#[test]
fn parse_flushes_open_parts_by_id() {
    let input = "[Sticker(id=\"b\", multi=true, text=\"p\")]\n[Sticker(id=\"a\", multi=true, text=\"x\")]\n[Sticker(id=\"a\", multi=true, text=\"y\")]\n[Sticker(id=\"a\")]\n[Sticker(id=\"a\", multi=true, text=\"z\")]\nprose";
    assert_eq!(
        parse(input),
        vec![
            Event::Sticker("xy".into()),
            Event::Narration("prose".into()),
            Event::Sticker("z".into()),
            Event::Sticker("p".into()),
        ]
    );
}

#[test]
fn parse_trailing_text_matches_tokenizer() {
    let line = "[name=\"A\"][Delay(time=1)]said";
    let tokens = tokenize_line(line);
    assert_eq!(tokens.last(), Some(&Token::Text("said".into())));
    assert_eq!(parse(line), vec![Event::Dialogue { speaker: "A".into(), text: "said".into() }]);
}
