use ark_story_plaintext::parser::{expand_escape_newlines, parse, strip_xml_tags, Event};

// --- strip_xml_tags tests ---

#[test]
fn strip_italic() {
    assert_eq!(strip_xml_tags("<i>hello</i>"), "hello");
}

#[test]
fn strip_color() {
    assert_eq!(strip_xml_tags("<color=#000000>hi</color>"), "hi");
}

#[test]
fn strip_nested_xml() {
    assert_eq!(strip_xml_tags("<color=#000><i>hi</i></color>"), "hi");
}

#[test]
fn strip_no_tags() {
    assert_eq!(strip_xml_tags("plain text"), "plain text");
}

#[test]
fn strip_mixed_content() {
    assert_eq!(strip_xml_tags("a<i>b</i>c"), "abc");
}

#[test]
fn strip_self_closing() {
    assert_eq!(strip_xml_tags("before<br/>after"), "beforeafter");
}

#[test]
fn strip_preserves_ampersand() {
    assert_eq!(strip_xml_tags("a &amp; b"), "a &amp; b");
}

// --- expand_escape_newlines tests ---

#[test]
fn expand_single_newline() {
    assert_eq!(expand_escape_newlines(r"line1\nline2"), "line1\nline2");
}

#[test]
fn expand_multiple_newlines() {
    assert_eq!(expand_escape_newlines(r"a\n\nb"), "a\n\nb");
}

#[test]
fn expand_no_newlines() {
    assert_eq!(expand_escape_newlines("no newlines here"), "no newlines here");
}

#[test]
fn expand_leading_newline() {
    assert_eq!(expand_escape_newlines(r"\n联邦移动监狱"), "\n联邦移动监狱");
}

// --- parse tests ---

#[test]
fn parse_plain_narration() {
    let events = parse("她坐在树桩上一边哼着歌");
    assert_eq!(events, vec![Event::Narration("她坐在树桩上一边哼着歌".into())]);
}

#[test]
fn parse_name_dialogue() {
    let events = parse(r#"[name="锡人"]呼......熟悉的气味"#);
    assert_eq!(
        events,
        vec![Event::Dialogue {
            speaker: "锡人".into(),
            text: "呼......熟悉的气味".into()
        }]
    );
}

#[test]
fn parse_multiline_dialogue() {
    let events = parse(r#"[multiline(name="缪尔赛思")]......塞雷娅！"#);
    assert_eq!(
        events,
        vec![Event::Dialogue {
            speaker: "缪尔赛思".into(),
            text: "......塞雷娅！".into()
        }]
    );
}

#[test]
fn parse_subtitle() {
    let events = parse(r#"[Subtitle(text="星星带走了她的爱人。", x=300)]"#);
    assert_eq!(events, vec![Event::Subtitle("星星带走了她的爱人。".into())]);
}

#[test]
fn parse_subtitle_with_newline() {
    let events = parse(r#"[Subtitle(text="line1\nline2", x=300)]"#);
    assert_eq!(events, vec![Event::Subtitle("line1\nline2".into())]);
}

#[test]
fn parse_subtitle_closing_tag_skipped() {
    let events = parse("[subtitle]");
    assert_eq!(events, vec![]);
}

#[test]
fn parse_sticker_with_xml() {
    let events = parse(r#"[Sticker(id="st1", text="<i>hello</i>", x=320)]"#);
    assert_eq!(events, vec![Event::Sticker("hello".into())]);
}

#[test]
fn parse_sticker_nested_xml() {
    let events =
        parse(r#"[Sticker(id="st1", text="<color=#000000><i>hi</i></color>", x=320)]"#);
    assert_eq!(events, vec![Event::Sticker("hi".into())]);
}

#[test]
fn parse_sticker_closing_no_text_skipped() {
    let events = parse(r#"[Sticker(id="st1",duration=1,block = false)]"#);
    assert_eq!(events, vec![]);
}

#[test]
fn parse_sticker_closing_no_text_no_id() {
    let events = parse(r#"[Sticker(duration=1)]"#);
    assert_eq!(events, vec![]);
}

#[test]
fn parse_multi_sticker_concatenation() {
    let input = r#"[Sticker(id="st1", multi = true, text="1099年，哥伦比亚，", x=320,y=340, alignment="left", size=24, delay=0.04, width=640,block = true)]
[Sticker(id="st1", multi = true, text="\n联邦移动监狱",block = true)]
[Sticker(id="st1",duration=0.5,block = false)]"#;
    let events = parse(input);
    assert_eq!(
        events,
        vec![Event::Sticker("1099年，哥伦比亚，\n联邦移动监狱".into())]
    );
}

#[test]
fn parse_ignored_tags() {
    let input = "[Blocker(a=1, r=0, g=0, b=0)]\n[charslot]\n[Dialog]\n[Delay(time=1)]";
    let events = parse(input);
    assert_eq!(events, vec![]);
}

#[test]
fn parse_decision_omitted() {
    let events = parse(r#"[Decision(options="别偷听了;小心被发现",values="1;2")]"#);
    assert_eq!(events, vec![]);
}

#[test]
fn parse_mixed_sequence() {
    let input = r#"[Blocker(a=1)]
[charslot(slot="m")]
她坐在树桩上。
[name="锡人"]呼......
[Dialog]
[Subtitle(text="星星。", x=300)]"#;
    let events = parse(input);
    assert_eq!(
        events,
        vec![
            Event::Narration("她坐在树桩上。".into()),
            Event::Dialogue {
                speaker: "锡人".into(),
                text: "呼......".into()
            },
            Event::Subtitle("星星。".into()),
        ]
    );
}

#[test]
fn parse_consecutive_dialogue() {
    let input = r#"[name="小贾斯汀"]看看您的周围，然后回想一下——
[name="小贾斯汀"]您的上司"#;
    let events = parse(input);
    assert_eq!(events.len(), 2);
    assert!(matches!(&events[0], Event::Dialogue { speaker, .. } if speaker == "小贾斯汀"));
    assert!(matches!(&events[1], Event::Dialogue { speaker, .. } if speaker == "小贾斯汀"));
}

#[test]
fn parse_sticker_leading_space_preserved() {
    let events = parse(
        r#"[Sticker(id="st1", text="<color=#000000><i> 那么，晚安</i></color>", x=150)]"#,
    );
    assert_eq!(events, vec![Event::Sticker(" 那么，晚安".into())]);
}

#[test]
fn parse_sticker_poem_with_italic() {
    let line = format!(
        "[Sticker(id=\"st1\", text=\"<i>\u{201c}如若此后百年千年，来人漫步于繁星身侧，人们便要赞颂她的名。\u{201d}</i>\", x=320)]"
    );
    let events = parse(&line);
    assert_eq!(
        events,
        vec![Event::Sticker(
            "\u{201c}如若此后百年千年，来人漫步于繁星身侧，人们便要赞颂她的名。\u{201d}".into()
        )]
    );
}

#[test]
fn parse_narration_with_xml_tags_stripped() {
    let events = parse("她说了一句<i>重要的话</i>。");
    assert_eq!(events, vec![Event::Narration("她说了一句重要的话。".into())]);
}

#[test]
fn parse_unflushed_multi_sticker() {
    let input = r#"[Sticker(id="st1", multi = true, text="orphan text")]"#;
    let events = parse(input);
    assert_eq!(events, vec![Event::Sticker("orphan text".into())]);
}
