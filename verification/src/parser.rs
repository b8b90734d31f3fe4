//! Turning a script into narration, dialogue, subtitle and sticker events.

use vstd::prelude::*;

use crate::lexer::{
    escape_quotes, key_only_inside_words, lemma_quoted_escaped, lemma_param_quoted, lemma_tag_name_is_leading_word,
    lemma_tag_with_quoted_string, param_at, param_from, quoted_value, spec_tokenize, tag_name,
    tokens_from, ws_end, SpecToken,
    find_param, lemma_tag_end, name_matches, opt_chars_view, param_value, scan_tag_end, tag_end,
    lemma_tag_name_end_bounds, tag_name_end, tag_name_eq, tag_name_prefix,
};
use crate::text::{
    ascii_eq_ignore_case, ascii_lower_code, append_chars, char_vecs_view, chars_eq, chars_of,
    contains_char, eq_ignore_ascii_case, eq_ignore_ascii_case_char, lemma_lines_join,
    lemma_lines_single, lines,
    lines_fold, split_lines,
    string_from_range, string_of, trim_end, lemma_trim_end, is_white_space, trim_end_index, vec_from_range,
};

verus! {

/// A semantic event produced by the parser.
#[derive(Debug, Clone, PartialEq)]
pub enum Event {
    /// Narrative prose text.
    Narration(String),
    /// Character dialogue with speaker name and spoken text.
    Dialogue { speaker: String, text: String },
    /// Subtitle overlay text.
    Subtitle(String),
    /// Sticker overlay text.
    Sticker(String),
}

/// The mathematical value of an [`Event`].
pub enum SpecEvent {
    Narration(Seq<char>),
    Dialogue { speaker: Seq<char>, text: Seq<char> },
    Subtitle(Seq<char>),
    Sticker(Seq<char>),
}

impl View for Event {
    type V = SpecEvent;

    open spec fn view(&self) -> SpecEvent {
        match self {
            Event::Narration(t) => SpecEvent::Narration(t@),
            Event::Dialogue { speaker, text } => SpecEvent::Dialogue {
                speaker: speaker@,
                text: text@,
            },
            Event::Subtitle(t) => SpecEvent::Subtitle(t@),
            Event::Sticker(t) => SpecEvent::Sticker(t@),
        }
    }
}

/// The values of a sequence of events.
pub open spec fn events_view(es: Seq<Event>) -> Seq<SpecEvent> {
    es.map_values(|e: Event| e@)
}

/// Text processing state after reading `s`: the kept characters, and whether
/// an XML tag is open.
pub open spec fn strip_fold(s: Seq<char>) -> (Seq<char>, bool)
    decreases s.len(),
{
    if s.len() == 0 {
        (Seq::empty(), false)
    } else {
        let st = strip_fold(s.drop_last());
        let c = s.last();
        if st.1 {
            (st.0, c != '>')
        } else if c == '<' {
            (st.0, true)
        } else {
            (st.0.push(c), false)
        }
    }
}

/// `s` without its XML tags: each `<` drops every character up to and
/// including the next `>` (or up to the end).
pub open spec fn spec_strip_xml(s: Seq<char>) -> Seq<char> {
    strip_fold(s).0
}

/// `s` with every `\n` escape (a backslash, then `n`) replaced by a newline,
/// read from left to right.
pub open spec fn spec_expand_newlines(s: Seq<char>) -> Seq<char>
    decreases s.len(),
{
    if s.len() == 0 {
        Seq::empty()
    } else if s.len() >= 2 && s[0] == '\\' && s[1] == 'n' {
        seq!['\n'] + spec_expand_newlines(s.skip(2))
    } else {
        seq![s[0]] + spec_expand_newlines(s.skip(1))
    }
}

/// The text shown for a subtitle or sticker: tags stripped, then escapes expanded.
pub open spec fn display_text(s: Seq<char>) -> Seq<char> {
    spec_expand_newlines(spec_strip_xml(s))
}

/// `s` holds a `\n` escape: a backslash directly followed by `n`.
pub open spec fn has_newline_escape(s: Seq<char>) -> bool {
    exists|i: int| 0 <= i < s.len() - 1 && #[trigger] s[i] == '\\' && s[i + 1] == 'n'
}

/// No `<` is left once XML tags are stripped.
pub proof fn lemma_strip_xml_removes_lt(s: Seq<char>)
    ensures
        !spec_strip_xml(s).contains('<'),
    decreases s.len(),
{
    if s.len() > 0 {
        lemma_strip_xml_removes_lt(s.drop_last());
        let prev = strip_fold(s.drop_last()).0;
        assert forall|i: int| 0 <= i < spec_strip_xml(s).len() implies spec_strip_xml(s)[i] != '<' by {
            if i < prev.len() {
                assert(spec_strip_xml(s)[i] == prev[i]);
            }
        }
    }
}

/// Text without `<` comes back from stripping unchanged.
pub proof fn lemma_strip_xml_identity(s: Seq<char>)
    requires
        !s.contains('<'),
    ensures
        spec_strip_xml(s) == s,
        !strip_fold(s).1,
    decreases s.len(),
{
    if s.len() > 0 {
        assert(!s.drop_last().contains('<')) by {
            if s.drop_last().contains('<') {
                let i = choose|i: int| 0 <= i < s.drop_last().len() && s.drop_last()[i] == '<';
                assert(s[i] == '<');
            }
        }
        lemma_strip_xml_identity(s.drop_last());
        assert(s[s.len() - 1] != '<');
        assert(s.drop_last().push(s.last()) =~= s);
    }
}

/// Stripping twice strips no more than stripping once.
pub proof fn lemma_strip_xml_idempotent(s: Seq<char>)
    ensures
        spec_strip_xml(spec_strip_xml(s)) == spec_strip_xml(s),
{
    lemma_strip_xml_removes_lt(s);
    lemma_strip_xml_identity(spec_strip_xml(s));
}

/// The first character of expanded text that does not start with a `\n`
/// escape is the first character of the text.
proof fn lemma_expand_first(s: Seq<char>)
    requires
        s.len() > 0,
    ensures
        spec_expand_newlines(s).len() > 0,
        spec_expand_newlines(s)[0] == if s.len() >= 2 && s[0] == '\\' && s[1] == 'n' {
            '\n'
        } else {
            s[0]
        },
{
}

/// No `\n` escape is left once escapes are expanded.
pub proof fn lemma_expand_removes_escapes(s: Seq<char>)
    ensures
        !has_newline_escape(spec_expand_newlines(s)),
    decreases s.len(),
{
    if s.len() > 0 {
        let r = spec_expand_newlines(s);
        if s.len() >= 2 && s[0] == '\\' && s[1] == 'n' {
            let rest = spec_expand_newlines(s.skip(2));
            lemma_expand_removes_escapes(s.skip(2));
            assert(r == seq!['\n'] + rest);
            assert forall|i: int| 0 <= i < r.len() - 1 implies !(#[trigger] r[i] == '\\' && r[i + 1]
                == 'n') by {
                if i > 0 {
                    assert(r[i] == rest[i - 1] && r[i + 1] == rest[i]);
                }
            }
        } else {
            let rest = spec_expand_newlines(s.skip(1));
            lemma_expand_removes_escapes(s.skip(1));
            assert(r == seq![s[0]] + rest);
            assert forall|i: int| 0 <= i < r.len() - 1 implies !(#[trigger] r[i] == '\\' && r[i + 1]
                == 'n') by {
                if i > 0 {
                    assert(r[i] == rest[i - 1] && r[i + 1] == rest[i]);
                } else if s[0] == '\\' {
                    lemma_expand_first(s.skip(1));
                    assert(s.skip(1)[0] == s[1]);
                }
            }
        }
    }
}

/// Text without `\n` escapes comes back from expansion unchanged.
pub proof fn lemma_expand_identity(s: Seq<char>)
    requires
        !has_newline_escape(s),
    ensures
        spec_expand_newlines(s) == s,
    decreases s.len(),
{
    if s.len() > 0 {
        if s.len() >= 2 && s[0] == '\\' && s[1] == 'n' {
            assert(s[0] == '\\' && s[0int + 1] == 'n');
        }
        assert(!has_newline_escape(s.skip(1))) by {
            if has_newline_escape(s.skip(1)) {
                let i = choose|i: int|
                    0 <= i < s.skip(1).len() - 1 && #[trigger] s.skip(1)[i] == '\\' && s.skip(1)[i
                        + 1] == 'n';
                assert(s[i + 1] == '\\' && s[i + 2] == 'n');
            }
        }
        lemma_expand_identity(s.skip(1));
        assert(seq![s[0]] + s.skip(1) =~= s);
    }
}

/// Expansion brings in no character but newlines: any other character of
/// the result is already in the text.
pub proof fn lemma_expand_adds_only_newlines(s: Seq<char>, c: char)
    requires
        c != '\n',
        spec_expand_newlines(s).contains(c),
    ensures
        s.contains(c),
    decreases s.len(),
{
    let r = spec_expand_newlines(s);
    let i = choose|i: int| 0 <= i < r.len() && r[i] == c;
    if s.len() >= 2 && s[0] == '\\' && s[1] == 'n' {
        let rest = spec_expand_newlines(s.skip(2));
        assert(r == seq!['\n'] + rest);
        assert(i > 0);
        assert(rest[i - 1] == c);
        lemma_expand_adds_only_newlines(s.skip(2), c);
        let j = choose|j: int| 0 <= j < s.skip(2).len() && s.skip(2)[j] == c;
        assert(s[j + 2] == c);
    } else {
        let rest = spec_expand_newlines(s.skip(1));
        assert(r == seq![s[0]] + rest);
        if i == 0 {
            assert(s[0] == c);
        } else {
            assert(rest[i - 1] == c);
            lemma_expand_adds_only_newlines(s.skip(1), c);
            let j = choose|j: int| 0 <= j < s.skip(1).len() && s.skip(1)[j] == c;
            assert(s[j + 1] == c);
        }
    }
}

/// Displayed subtitle and sticker text holds no `<` and no `\n` escape.
pub proof fn lemma_display_text_clean(s: Seq<char>)
    ensures
        !display_text(s).contains('<'),
        !has_newline_escape(display_text(s)),
{
    lemma_strip_xml_removes_lt(s);
    lemma_expand_removes_escapes(spec_strip_xml(s));
    if display_text(s).contains('<') {
        lemma_expand_adds_only_newlines(spec_strip_xml(s), '<');
    }
}

/// Stripping works piece by piece: text read outside any tag is stripped
/// independently of what follows it.
pub proof fn lemma_strip_xml_concat(x: Seq<char>, y: Seq<char>)
    requires
        !strip_fold(x).1,
    ensures
        spec_strip_xml(x + y) == spec_strip_xml(x) + spec_strip_xml(y),
        strip_fold(x + y).1 == strip_fold(y).1,
    decreases y.len(),
{
    if y.len() == 0 {
        assert(x + y =~= x);
        assert(spec_strip_xml(x) + spec_strip_xml(y) =~= spec_strip_xml(x));
    } else {
        assert((x + y).drop_last() =~= x + y.drop_last());
        assert((x + y).last() == y.last());
        lemma_strip_xml_concat(x, y.drop_last());
        let a = strip_fold(x).0;
        let b = strip_fold(y.drop_last()).0;
        assert((a + b).push(y.last()) =~= a + b.push(y.last()));
    }
}

proof fn lemma_strip_inside_tag(t: Seq<char>)
    requires
        !t.contains('>'),
    ensures
        strip_fold(seq!['<'] + t) == (Seq::<char>::empty(), true),
    decreases t.len(),
{
    if t.len() == 0 {
        let one = seq!['<'] + t;
        assert(one.drop_last() =~= Seq::<char>::empty());
        assert(one.last() == '<');
        assert(strip_fold(one.drop_last()) == (Seq::<char>::empty(), false));
    } else {
        assert(!t.drop_last().contains('>')) by {
            if t.drop_last().contains('>') {
                let i = choose|i: int| 0 <= i < t.drop_last().len() && t.drop_last()[i] == '>';
                assert(t[i] == '>');
            }
        }
        lemma_strip_inside_tag(t.drop_last());
        assert((seq!['<'] + t).drop_last() =~= seq!['<'] + t.drop_last());
        assert((seq!['<'] + t).last() == t.last());
        assert(t[t.len() - 1] != '>');
    }
}

/// A whole XML tag, `<`, characters other than `>`, then `>`, is removed
/// entirely, and reading goes on outside any tag.
pub proof fn lemma_strip_xml_tag(t: Seq<char>)
    requires
        !t.contains('>'),
    ensures
        spec_strip_xml(seq!['<'] + t + seq!['>']) == Seq::<char>::empty(),
        !strip_fold(seq!['<'] + t + seq!['>']).1,
{
    lemma_strip_inside_tag(t);
    assert((seq!['<'] + t + seq!['>']).drop_last() =~= seq!['<'] + t);
}

/// Expansion works piece by piece when the first piece does not end with a
/// backslash (which could start an escape across the cut).
pub proof fn lemma_expand_concat(x: Seq<char>, y: Seq<char>)
    requires
        x.len() == 0 || x.last() != '\\',
    ensures
        spec_expand_newlines(x + y) == spec_expand_newlines(x) + spec_expand_newlines(y),
    decreases x.len(),
{
    if x.len() == 0 {
        assert(x + y =~= y);
        assert(spec_expand_newlines(x) + spec_expand_newlines(y) =~= spec_expand_newlines(y));
    } else if x.len() >= 2 && x[0] == '\\' && x[1] == 'n' {
        assert((x + y).skip(2) =~= x.skip(2) + y);
        if x.len() > 2 {
            assert(x.skip(2).last() == x.last());
        }
        lemma_expand_concat(x.skip(2), y);
        assert(spec_expand_newlines(x + y) =~= spec_expand_newlines(x) + spec_expand_newlines(y));
    } else {
        assert((x + y).skip(1) =~= x.skip(1) + y);
        if x.len() > 1 {
            assert(x.skip(1).last() == x.last());
        }
        lemma_expand_concat(x.skip(1), y);
        assert(spec_expand_newlines(x + y) =~= spec_expand_newlines(x) + spec_expand_newlines(y));
    }
}

/// A `\n` escape becomes one newline.
pub proof fn lemma_expand_escape(y: Seq<char>)
    ensures
        spec_expand_newlines(seq!['\\', 'n'] + y) == seq!['\n'] + spec_expand_newlines(y),
{
    assert((seq!['\\', 'n'] + y).skip(2) =~= y);
}

/// `v` without its XML tags.
pub(crate) fn strip_xml_chars(v: &Vec<char>) -> (r: Vec<char>)
    ensures
        r@ == spec_strip_xml(v@),
{
    let mut out: Vec<char> = Vec::new();
    let mut in_tag = false;
    let mut i: usize = 0;
    while i < v.len()
        invariant
            i <= v.len(),
            (out@, in_tag) == strip_fold(v@.take(i as int)),
        decreases v.len() - i,
    {
        let c = v[i];
        assert(v@.take(i + 1).drop_last() =~= v@.take(i as int));
        if in_tag {
            in_tag = c != '>';
        } else if c == '<' {
            in_tag = true;
        } else {
            out.push(c);
        }
        i += 1;
    }
    assert(v@.take(i as int) =~= v@);
    out
}

/// `v` with every `\n` escape replaced by a newline.
pub(crate) fn expand_newlines_chars(v: &Vec<char>) -> (r: Vec<char>)
    ensures
        r@ == spec_expand_newlines(v@),
{
    let mut out: Vec<char> = Vec::new();
    let mut i: usize = 0;
    let len = v.len();
    assert(v@.skip(0) =~= v@);
    while i < len
        invariant
            i <= len,
            len == v.len(),
            out@ + spec_expand_newlines(v@.skip(i as int)) == spec_expand_newlines(v@),
        decreases len - i,
    {
        let ghost before = out@;
        let ghost rest = v@.skip(i as int);
        if i + 1 < len && v[i] == '\\' && v[i + 1] == 'n' {
            out.push('\n');
            assert(rest.skip(2) =~= v@.skip(i + 2));
            assert(out@ + spec_expand_newlines(v@.skip(i + 2)) =~= before + spec_expand_newlines(
                rest,
            ));
            i += 2;
        } else {
            out.push(v[i]);
            assert(rest.skip(1) =~= v@.skip(i + 1));
            assert(out@ + spec_expand_newlines(v@.skip(i + 1)) =~= before + spec_expand_newlines(
                rest,
            ));
            i += 1;
        }
    }
    assert(out@ + spec_expand_newlines(v@.skip(i as int)) =~= out@);
    out
}

/// Strip XML/XHTML tags from text, keeping only inner text content.
///
/// Handles tags like `<i>`, `</i>`, `<color=#000000>`, `</color>`.
/// Returns the input unchanged if no `<` is present.
pub fn strip_xml_tags(text: &str) -> (r: String)
    ensures
        r@ == spec_strip_xml(text@),
{
    let v = chars_of(text);
    let out = strip_xml_chars(&v);
    string_from_range(&out, 0, out.len())
}

/// Replace literal `\n` escape sequences with actual newline characters.
pub fn expand_escape_newlines(text: &str) -> (r: String)
    ensures
        r@ == spec_expand_newlines(text@),
{
    let v = chars_of(text);
    let out = expand_newlines_chars(&v);
    string_from_range(&out, 0, out.len())
}

/// Full text processing pipeline for Subtitle/Sticker extracted text.
fn process_display_text(text: &Vec<char>) -> (r: Vec<char>)
    ensures
        r@ == display_text(text@),
        !r@.contains('<'),
        !has_newline_escape(r@),
{
    proof {
        lemma_display_text_clean(text@);
    }
    let stripped = strip_xml_chars(text);
    expand_newlines_chars(&stripped)
}


/// The index just after a tag that ends at `e`.
pub open spec fn after_tag(l: Seq<char>, e: int) -> int {
    if e < l.len() {
        e + 1
    } else {
        e
    }
}

/// Where the run of tags that starts at `i` ends.
pub open spec fn skip_tags(l: Seq<char>, i: int) -> int
    decreases l.len() - i,
{
    if 0 <= i < l.len() && l[i] == '[' {
        let e = tag_end(l, i + 1, false);
        proof {
            lemma_tag_end(l, i + 1, false);
        }
        skip_tags(l, after_tag(l, e))
    } else {
        i
    }
}

/// The content of the first tag of a line that starts with `[`.
pub open spec fn first_tag_raw(l: Seq<char>) -> Seq<char> {
    l.subrange(1, tag_end(l, 1, false))
}

/// The text after the run of tags at the start of a line, without trailing
/// white space, if any is left.
pub open spec fn trailing_text(l: Seq<char>) -> Option<Seq<char>> {
    let i = skip_tags(l, after_tag(l, tag_end(l, 1, false)));
    if i < l.len() {
        let t = trim_end(l.subrange(i, l.len() as int));
        if t.len() == 0 {
            None
        } else {
            Some(t)
        }
    } else {
        None
    }
}

proof fn lemma_skip_tags(l: Seq<char>, i: int)
    requires
        0 <= i <= l.len(),
    ensures
        i <= skip_tags(l, i) <= l.len(),
        skip_tags(l, i) < l.len() ==> l[skip_tags(l, i)] != '[',
    decreases l.len() - i,
{
    if i < l.len() && l[i] == '[' {
        lemma_tag_end(l, i + 1, false);
        lemma_skip_tags(l, after_tag(l, tag_end(l, i + 1, false)));
    }
}

/// The text after a line's tags is never empty, does not start with `[`, and
/// does not end with white space.
pub proof fn lemma_trailing_text_shape(l: Seq<char>)
    requires
        l.len() > 0,
    ensures
        trailing_text(l) matches Some(t) ==> t.len() > 0 && t[0] != '[' && !is_white_space(t.last()),
{
    lemma_tag_end(l, 1, false);
    let i0 = after_tag(l, tag_end(l, 1, false));
    lemma_skip_tags(l, i0);
    let i = skip_tags(l, i0);
    if i < l.len() {
        let sub = l.subrange(i, l.len() as int);
        lemma_trim_end(sub);
        let t = trim_end(sub);
        if t.len() > 0 {
            assert(t[0] == sub[0]);
        }
    }
}

proof fn lemma_tokens_from_last(t: Seq<char>, i: int)
    requires
        0 <= i <= t.len(),
    ensures
        skip_tags(t, i) < t.len() ==> tokens_from(t, i).len() > 0 && tokens_from(t, i).last()
            == SpecToken::Text(t.subrange(skip_tags(t, i), t.len() as int)),
        skip_tags(t, i) >= t.len() ==> tokens_from(t, i).len() == 0 || tokens_from(t, i).last() is Tag,
    decreases t.len() - i,
{
    if i < t.len() && t[i] == '[' {
        lemma_tag_end(t, i + 1, false);
        let next = after_tag(t, tag_end(t, i + 1, false));
        lemma_tokens_from_last(t, next);
        let rest = tokens_from(t, next);
        let ts = tokens_from(t, i);
        if rest.len() > 0 {
            assert(ts.last() == rest.last());
        }
    }
}

/// On a line that starts with `[` and has no trailing white space, the
/// parser's scan agrees with the lexer: the first tag is the lexer's first
/// token, and the text after the tags is the lexer's final text token.
pub proof fn lemma_scan_agrees_with_tokenize(l: Seq<char>)
    requires
        l.len() > 0,
        l[0] == '[',
        trim_end(l) == l,
    ensures
        spec_tokenize(l).len() > 0,
        spec_tokenize(l)[0] == (SpecToken::Tag {
            name: tag_name(first_tag_raw(l)),
            raw_inner: first_tag_raw(l),
        }),
        trailing_text(l) == match spec_tokenize(l).last() {
            SpecToken::Text(t) => Some(t),
            SpecToken::Tag { .. } => None,
        },
{
    lemma_tag_end(l, 1, false);
    lemma_tokens_from_last(l, 0);
    lemma_trim_end(l);
    lemma_skip_tags(l, 0);
    let i = skip_tags(l, 0);
    assert(spec_tokenize(l) == tokens_from(l, 0));
    assert(i == skip_tags(l, after_tag(l, tag_end(l, 1, false))));
    assert(tokens_from(l, 0).len() > 0);
    if i < l.len() {
        let sub = l.subrange(i, l.len() as int);
        assert(sub[sub.len() - 1] == l[l.len() - 1]);
        assert(!is_white_space(l[l.len() - 1]));
        assert(trim_end(sub) == sub);
    }
}

/// Parse a line starting with `[`, returning (raw_inner of first tag, trailing text).
/// Scans the line once, respecting quoted strings.
fn scan_tag_line(line: &Vec<char>) -> (r: (Vec<char>, Option<Vec<char>>))
    requires
        line.len() > 0,
        line@[0] == '[',
    ensures
        r.0@ == first_tag_raw(line@),
        opt_chars_view(r.1) == trailing_text(line@),
        r.1 matches Some(t) ==> t@.len() > 0 && t@[0] != '[' && !is_white_space(t@.last()),
{
    proof {
        lemma_trailing_text_shape(line@);
    }
    let len = line.len();
    let e = scan_tag_end(line, 1);
    proof {
        lemma_tag_end(line@, 1, false);
    }
    let raw = vec_from_range(line, 1, e);
    let mut i = if e < len {
        e + 1
    } else {
        e
    };
    let ghost i0 = i as int;
    while i < len && line[i] == '['
        invariant
            i0 <= i <= len,
            len == line.len(),
            skip_tags(line@, i as int) == skip_tags(line@, i0),
        decreases len - i,
    {
        let e2 = scan_tag_end(line, i + 1);
        proof {
            lemma_tag_end(line@, i + 1, false);
        }
        i = if e2 < len {
            e2 + 1
        } else {
            e2
        };
    }
    if i < len {
        let end = trim_end_index(line, i);
        if end == i {
            (raw, None)
        } else {
            (raw, Some(vec_from_range(line, i, end)))
        }
    } else {
        (raw, None)
    }
}

/// The tag and parameter name `name`.
pub open spec fn key_name() -> Seq<char> {
    seq!['n', 'a', 'm', 'e']
}

/// The tag name `multiline`.
pub open spec fn key_multiline() -> Seq<char> {
    seq!['m', 'u', 'l', 't', 'i', 'l', 'i', 'n', 'e']
}

/// The tag name `subtitle`.
pub open spec fn key_subtitle() -> Seq<char> {
    seq!['s', 'u', 'b', 't', 'i', 't', 'l', 'e']
}

/// The tag name `sticker`.
pub open spec fn key_sticker() -> Seq<char> {
    seq!['s', 't', 'i', 'c', 'k', 'e', 'r']
}

/// The parameter name `text`.
pub open spec fn key_text() -> Seq<char> {
    seq!['t', 'e', 'x', 't']
}

/// The parameter name `id`.
pub open spec fn key_id() -> Seq<char> {
    seq!['i', 'd']
}

/// The parameter name `multi`.
pub open spec fn key_multi() -> Seq<char> {
    seq!['m', 'u', 'l', 't', 'i']
}

/// The flag value `true`.
pub open spec fn word_true() -> Seq<char> {
    seq!['t', 'r', 'u', 'e']
}

/// What the parser has built so far: the events, and the texts of multi-part
/// stickers still open, each with its id, in the order their ids first came.
pub struct ParseState {
    pub events: Seq<SpecEvent>,
    pub pending: Seq<(Seq<char>, Seq<char>)>,
}

/// The index of the first open sticker from `i` with this id, or the length
/// when there is none.
pub open spec fn pending_index(p: Seq<(Seq<char>, Seq<char>)>, id: Seq<char>, i: int) -> int
    decreases p.len() - i,
{
    if i < 0 || i >= p.len() {
        p.len() as int
    } else if p[i].0 == id {
        i
    } else {
        pending_index(p, id, i + 1)
    }
}

/// The tag's `multi` parameter is `true`, ignoring ASCII case.
pub open spec fn multi_flag(raw: Seq<char>) -> bool {
    match param_value(raw, key_multi()) {
        Some(v) => ascii_eq_ignore_case(v, word_true()),
        None => false,
    }
}

/// Adds `t` to the open sticker with this id, opening it if needed.
pub open spec fn append_pending(p: Seq<(Seq<char>, Seq<char>)>, id: Seq<char>, t: Seq<char>) -> Seq<
    (Seq<char>, Seq<char>),
> {
    let i = pending_index(p, id, 0);
    if i < p.len() {
        p.update(i, (p[i].0, p[i].1 + t))
    } else {
        p.push((id, t))
    }
}

/// A sticker tag: one-part stickers are shown at once; parts of a `multi`
/// sticker are collected under its id; a sticker with an id and no text
/// closes the open sticker with that id and shows its collected text.
pub open spec fn sticker_step(st: ParseState, raw: Seq<char>) -> ParseState {
    let id = param_value(raw, key_id());
    let text = param_value(raw, key_text());
    let multi = multi_flag(raw);
    match text {
        Some(t) => if multi {
            match id {
                Some(id) => ParseState {
                    events: st.events,
                    pending: append_pending(st.pending, id, t),
                },
                None => st,
            }
        } else {
            ParseState {
                events: st.events.push(SpecEvent::Sticker(display_text(t))),
                pending: st.pending,
            }
        },
        None => match id {
            Some(id) => {
                let i = pending_index(st.pending, id, 0);
                if i < st.pending.len() {
                    ParseState {
                        events: st.events.push(SpecEvent::Sticker(display_text(st.pending[i].1))),
                        pending: st.pending.remove(i),
                    }
                } else {
                    st
                }
            },
            None => st,
        },
    }
}

/// The effect of one line: plain text is narration; a `name` or `multiline`
/// tag with text after it is dialogue; a `subtitle` tag with text is a
/// subtitle; a `sticker` tag goes to `sticker_step`; every other line is
/// ignored.
pub open spec fn parse_step(st: ParseState, l: Seq<char>) -> ParseState {
    if l.len() == 0 {
        st
    } else if l[0] != '[' {
        ParseState {
            events: st.events.push(SpecEvent::Narration(spec_strip_xml(l))),
            pending: st.pending,
        }
    } else {
        let raw = first_tag_raw(l);
        if name_matches(raw, key_name()) || name_matches(raw, key_multiline()) {
            match (trailing_text(l), param_value(raw, key_name())) {
                (Some(t), Some(sp)) => ParseState {
                    events: st.events.push(
                        SpecEvent::Dialogue { speaker: sp, text: spec_strip_xml(t) },
                    ),
                    pending: st.pending,
                },
                _ => st,
            }
        } else if name_matches(raw, key_subtitle()) {
            match param_value(raw, key_text()) {
                Some(t) => ParseState {
                    events: st.events.push(SpecEvent::Subtitle(display_text(t))),
                    pending: st.pending,
                },
                None => st,
            }
        } else if name_matches(raw, key_sticker()) {
            sticker_step(st, raw)
        } else {
            st
        }
    }
}

/// The state after the given lines.
pub open spec fn parse_fold(ls: Seq<Seq<char>>) -> ParseState
    decreases ls.len(),
{
    if ls.len() == 0 {
        ParseState { events: Seq::empty(), pending: Seq::empty() }
    } else {
        parse_step(parse_fold(ls.drop_last()), ls.last())
    }
}

/// The length of the longest common prefix of `a` and `b` from index `i`.
pub open spec fn common_prefix_end(a: Seq<char>, b: Seq<char>, i: int) -> int
    decreases a.len() - i,
{
    if i < 0 || i >= a.len() || i >= b.len() || a[i] != b[i] {
        i
    } else {
        common_prefix_end(a, b, i + 1)
    }
}

/// `a` comes before `b` in lexicographic order of code points (the order of
/// `String`s).
pub open spec fn key_lt(a: Seq<char>, b: Seq<char>) -> bool {
    let k = common_prefix_end(a, b, 0);
    if k < a.len() && k < b.len() {
        (a[k] as int) < (b[k] as int)
    } else {
        a.len() < b.len()
    }
}

/// The index of the open sticker with the least id (the first such, on ties).
pub open spec fn min_key_index(p: Seq<(Seq<char>, Seq<char>)>) -> int
    decreases p.len(),
{
    if p.len() <= 1 {
        0
    } else {
        let m = min_key_index(p.drop_last());
        if key_lt(p.last().0, p[m].0) {
            p.len() - 1
        } else {
            m
        }
    }
}

/// A `min_key_index` lies inside a non-empty list.
pub proof fn lemma_min_key_index_bounds(p: Seq<(Seq<char>, Seq<char>)>)
    requires
        p.len() > 0,
    ensures
        0 <= min_key_index(p) < p.len(),
    decreases p.len(),
{
    if p.len() > 1 {
        lemma_min_key_index_bounds(p.drop_last());
    }
}

/// The stickers still open at the end of the input, shown in order of id.
pub open spec fn flush(p: Seq<(Seq<char>, Seq<char>)>) -> Seq<SpecEvent>
    decreases p.len(),
{
    if p.len() == 0 {
        Seq::empty()
    } else {
        let m = min_key_index(p);
        proof {
            lemma_min_key_index_bounds(p);
        }
        seq![SpecEvent::Sticker(display_text(p[m].1))] + flush(p.remove(m))
    }
}

/// The events of a whole script: those of its lines in order, then the
/// stickers that were never closed.
pub open spec fn spec_parse(input: Seq<char>) -> Seq<SpecEvent> {
    let st = parse_fold(lines(input));
    st.events + flush(st.pending)
}

/// The values of the open stickers.
pub open spec fn pending_view(p: Seq<(Vec<char>, Vec<char>)>) -> Seq<(Seq<char>, Seq<char>)> {
    p.map_values(|e: (Vec<char>, Vec<char>)| (e.0@, e.1@))
}

/// The parse state held by these vectors.
pub open spec fn state_of(events: Seq<Event>, pending: Seq<(Vec<char>, Vec<char>)>) -> ParseState {
    ParseState { events: events_view(events), pending: pending_view(pending) }
}


/// The index of the open sticker with id `id`, or the length when none is open.
fn find_pending(pending: &Vec<(Vec<char>, Vec<char>)>, id: &Vec<char>) -> (i: usize)
    ensures
        i == pending_index(pending_view(pending@), id@, 0),
{
    let mut i: usize = 0;
    while i < pending.len()
        invariant
            i <= pending.len(),
            pending_index(pending_view(pending@), id@, i as int) == pending_index(
                pending_view(pending@),
                id@,
                0,
            ),
        decreases pending.len() - i,
    {
        if chars_eq(&pending[i].0, id) {
            return i;
        }
        i += 1;
    }
    i
}

/// Adds `t` to the open sticker with this id, opening it if needed.
fn add_to_pending(pending: &mut Vec<(Vec<char>, Vec<char>)>, id: Vec<char>, t: Vec<char>)
    ensures
        pending_view(final(pending)@) == append_pending(pending_view(old(pending)@), id@, t@),
{
    let i = find_pending(pending, &id);
    if i < pending.len() {
        let (k, mut acc) = pending.remove(i);
        append_chars(&mut acc, &t);
        pending.insert(i, (k, acc));
        assert(pending_view(pending@) =~= append_pending(pending_view(old(pending)@), id@, t@));
    } else {
        pending.push((id, t));
        assert(pending_view(pending@) =~= append_pending(pending_view(old(pending)@), id@, t@));
    }
}

/// Whether `a` comes before `b` in lexicographic order of code points.
fn key_less(a: &Vec<char>, b: &Vec<char>) -> (r: bool)
    ensures
        r == key_lt(a@, b@),
{
    let mut i: usize = 0;
    while i < a.len() && i < b.len() && a[i] == b[i]
        invariant
            i <= a.len(),
            common_prefix_end(a@, b@, i as int) == common_prefix_end(a@, b@, 0),
        decreases a.len() - i,
    {
        i += 1;
    }
    if i < a.len() && i < b.len() {
        a[i] < b[i]
    } else {
        a.len() < b.len()
    }
}

/// The index of the open sticker with the least id.
fn min_pending_index(pending: &Vec<(Vec<char>, Vec<char>)>) -> (m: usize)
    requires
        pending.len() > 0,
    ensures
        m == min_key_index(pending_view(pending@)),
        m < pending.len(),
{
    let ghost p = pending_view(pending@);
    let mut m: usize = 0;
    let mut j: usize = 1;
    assert(p.take(1).len() == 1);
    while j < pending.len()
        invariant
            1 <= j <= pending.len(),
            p == pending_view(pending@),
            m == min_key_index(p.take(j as int)),
            m < j,
        decreases pending.len() - j,
    {
        assert(p.take(j + 1).drop_last() =~= p.take(j as int));
        if key_less(&pending[j].0, &pending[m].0) {
            m = j;
        }
        j += 1;
    }
    assert(p.take(j as int) =~= p);
    m
}

/// Handles a sticker tag with content `raw`.
fn sticker_line(raw: &Vec<char>, events: &mut Vec<Event>, pending: &mut Vec<(Vec<char>, Vec<char>)>)
    ensures
        state_of(final(events)@, final(pending)@) == sticker_step(
            state_of(old(events)@, old(pending)@),
            raw@,
        ),
{
    let k_id = vec!['i', 'd'];
    let k_text = vec!['t', 'e', 'x', 't'];
    let k_multi = vec!['m', 'u', 'l', 't', 'i'];
    let w_true = vec!['t', 'r', 'u', 'e'];
    assert(k_id@ == key_id());
    assert(k_text@ == key_text());
    assert(k_multi@ == key_multi());
    assert(w_true@ == word_true());
    let id = find_param(raw, &k_id);
    let text = find_param(raw, &k_text);
    let is_multi = match find_param(raw, &k_multi) {
        Some(v) => eq_ignore_ascii_case(&v, &w_true),
        None => false,
    };
    match text {
        Some(t) => {
            if is_multi {
                match id {
                    Some(id) => {
                        add_to_pending(pending, id, t);
                    },
                    None => {},
                }
            } else {
                let shown = process_display_text(&t);
                events.push(Event::Sticker(string_of(&shown)));
                assert(events_view(events@) =~= events_view(old(events)@).push(
                    SpecEvent::Sticker(display_text(t@)),
                ));
            }
        },
        None => {
            match id {
                Some(id) => {
                    let i = find_pending(pending, &id);
                    if i < pending.len() {
                        let (_, acc) = pending.remove(i);
                        let shown = process_display_text(&acc);
                        events.push(Event::Sticker(string_of(&shown)));
                        assert(events_view(events@) =~= events_view(old(events)@).push(
                            SpecEvent::Sticker(display_text(acc@)),
                        ));
                        assert(pending_view(pending@) =~= pending_view(old(pending)@).remove(
                            i as int,
                        ));
                    }
                },
                None => {},
            }
        },
    }
}


/// A tag whose name matches a non-empty key has that key's first letter,
/// in either ASCII case, right after the opening `[`.
proof fn lemma_name_first_char(l: Seq<char>, key: Seq<char>)
    requires
        l.len() > 0,
        l[0] == '[',
        key.len() > 0,
        name_matches(first_tag_raw(l), key),
    ensures
        l.len() >= 2,
        ascii_lower_code(l[1]) == ascii_lower_code(key[0]),
{
    let raw = first_tag_raw(l);
    lemma_tag_end(l, 1, false);
    let prefix = tag_name_prefix(raw);
    lemma_tag_name_end_bounds(raw, 0);
    assert(prefix.len() == key.len());
    if raw.len() == 0 {
        assert(tag_name_end(raw, 0) == 0);
    }
    assert(raw.len() > 0);
    assert(ascii_lower_code(prefix[0]) == ascii_lower_code(key[0]));
    assert(prefix[0] == raw[0]);
    assert(raw[0] == l[1]);
}

/// A line that starts with a tag whose name does not begin with `n`, `m` or
/// `s` (in either ASCII case) changes nothing.
pub proof fn lemma_other_tags_ignored(st: ParseState, l: Seq<char>)
    requires
        l.len() > 0,
        l[0] == '[',
        l.len() < 2 || (ascii_lower_code(l[1]) != 0x6E && ascii_lower_code(l[1]) != 0x6D
            && ascii_lower_code(l[1]) != 0x73),
    ensures
        parse_step(st, l) == st,
{
    let raw = first_tag_raw(l);
    if name_matches(raw, key_name()) {
        lemma_name_first_char(l, key_name());
    }
    if name_matches(raw, key_multiline()) {
        lemma_name_first_char(l, key_multiline());
    }
    if name_matches(raw, key_subtitle()) {
        lemma_name_first_char(l, key_subtitle());
    }
    if name_matches(raw, key_sticker()) {
        lemma_name_first_char(l, key_sticker());
    }
}

/// The text of an event is free of markup: no `<` in narration, dialogue,
/// subtitle or sticker text, and no `\n` escape in subtitle or sticker text.
pub open spec fn event_clean(e: SpecEvent) -> bool {
    match e {
        SpecEvent::Narration(t) => !t.contains('<'),
        SpecEvent::Dialogue { text, .. } => !text.contains('<'),
        SpecEvent::Subtitle(t) => !t.contains('<') && !has_newline_escape(t),
        SpecEvent::Sticker(t) => !t.contains('<') && !has_newline_escape(t),
    }
}

/// All the events are free of markup.
pub open spec fn events_clean(es: Seq<SpecEvent>) -> bool {
    forall|i: int| 0 <= i < es.len() ==> event_clean(#[trigger] es[i])
}

/// No two open stickers share an id.
pub open spec fn distinct_ids(p: Seq<(Seq<char>, Seq<char>)>) -> bool {
    forall|i: int, j: int| 0 <= i < j < p.len() ==> #[trigger] p[i].0 != #[trigger] p[j].0
}

proof fn lemma_pending_index(p: Seq<(Seq<char>, Seq<char>)>, id: Seq<char>, i: int)
    requires
        0 <= i <= p.len(),
    ensures
        i <= pending_index(p, id, i) <= p.len(),
        pending_index(p, id, i) < p.len() ==> p[pending_index(p, id, i)].0 == id,
        pending_index(p, id, i) == p.len() ==> forall|j: int| i <= j < p.len() ==> p[j].0 != id,
    decreases p.len() - i,
{
    if i < p.len() && p[i].0 != id {
        lemma_pending_index(p, id, i + 1);
    }
}

/// The text collected so far for the open sticker with this id (empty when
/// none is open).
pub open spec fn pending_text(p: Seq<(Seq<char>, Seq<char>)>, id: Seq<char>) -> Seq<char> {
    let i = pending_index(p, id, 0);
    if i < p.len() {
        p[i].1
    } else {
        Seq::empty()
    }
}

proof fn lemma_pending_index_update(
    p: Seq<(Seq<char>, Seq<char>)>,
    k: int,
    v: (Seq<char>, Seq<char>),
    x: Seq<char>,
    i: int,
)
    requires
        0 <= k < p.len(),
        v.0 == p[k].0,
        0 <= i <= p.len(),
    ensures
        pending_index(p.update(k, v), x, i) == pending_index(p, x, i),
    decreases p.len() - i,
{
    if i < p.len() && p[i].0 != x {
        lemma_pending_index_update(p, k, v, x, i + 1);
    }
}

proof fn lemma_pending_index_push(
    p: Seq<(Seq<char>, Seq<char>)>,
    v: (Seq<char>, Seq<char>),
    x: Seq<char>,
    i: int,
)
    requires
        0 <= i <= p.len(),
    ensures
        pending_index(p.push(v), x, i) == if pending_index(p, x, i) < p.len() {
            pending_index(p, x, i)
        } else if v.0 == x {
            p.len() as int
        } else {
            (p.len() + 1) as int
        },
    decreases p.len() + 1 - i,
{
    if i < p.len() && p[i].0 != x {
        lemma_pending_index_push(p, v, x, i + 1);
    } else if i == p.len() && v.0 != x {
        assert(pending_index(p.push(v), x, i + 1) == p.len() + 1);
    }
}

/// Parts of a multi-part sticker collect in order: adding a part to an id
/// appends it to that id's text and leaves the text of every other id alone.
pub proof fn lemma_append_pending_collects(
    p: Seq<(Seq<char>, Seq<char>)>,
    id: Seq<char>,
    t: Seq<char>,
    other: Seq<char>,
)
    requires
        other != id,
    ensures
        pending_text(append_pending(p, id, t), id) == pending_text(p, id) + t,
        pending_text(append_pending(p, id, t), other) == pending_text(p, other),
{
    lemma_pending_index(p, id, 0);
    let i = pending_index(p, id, 0);
    let q = append_pending(p, id, t);
    if i < p.len() {
        lemma_pending_index_update(p, i, (p[i].0, p[i].1 + t), id, 0);
        lemma_pending_index_update(p, i, (p[i].0, p[i].1 + t), other, 0);
        lemma_pending_index(p, other, 0);
    } else {
        lemma_pending_index_push(p, (id, t), other, 0);
        lemma_pending_index_push(p, (id, t), id, 0);
        lemma_pending_index(p, other, 0);
        assert(Seq::<char>::empty() + t =~= t);
    }
}

proof fn lemma_step_keeps_invariants(st: ParseState, l: Seq<char>)
    requires
        events_clean(st.events),
        distinct_ids(st.pending),
    ensures
        events_clean(parse_step(st, l).events),
        distinct_ids(parse_step(st, l).pending),
{
    let st2 = parse_step(st, l);
    if l.len() > 0 {
        if l[0] != '[' {
            lemma_strip_xml_removes_lt(l);
        } else {
            let raw = first_tag_raw(l);
            if name_matches(raw, key_name()) || name_matches(raw, key_multiline()) {
                if let Some(t) = trailing_text(l) {
                    lemma_strip_xml_removes_lt(t);
                }
            } else if name_matches(raw, key_subtitle()) {
                if let Some(t) = param_value(raw, key_text()) {
                    lemma_display_text_clean(t);
                }
            } else if name_matches(raw, key_sticker()) {
                let id = param_value(raw, key_id());
                if let Some(t) = param_value(raw, key_text()) {
                    lemma_display_text_clean(t);
                    if let Some(id) = id {
                        let p = st.pending;
                        lemma_pending_index(p, id, 0);
                        let q = append_pending(p, id, t);
                        assert forall|i: int, j: int| 0 <= i < j < q.len() implies #[trigger] q[i].0
                            != #[trigger] q[j].0 by {
                            if j == p.len() {
                                assert(q[i].0 == p[i].0);
                            } else {
                                assert(q[i].0 == p[i].0 && q[j].0 == p[j].0);
                            }
                        }
                    }
                } else if let Some(id) = id {
                    let p = st.pending;
                    lemma_pending_index(p, id, 0);
                    let i = pending_index(p, id, 0);
                    if i < p.len() {
                        lemma_display_text_clean(p[i].1);
                        let q = p.remove(i);
                        assert forall|a: int, b: int| 0 <= a < b < q.len() implies #[trigger] q[a].0
                            != #[trigger] q[b].0 by {
                            let a2 = if a < i {
                                a
                            } else {
                                a + 1
                            };
                            let b2 = if b < i {
                                b
                            } else {
                                b + 1
                            };
                            assert(q[a] == p[a2] && q[b] == p[b2]);
                        }
                    }
                }
            }
        }
    }
    assert forall|k: int| 0 <= k < st2.events.len() implies event_clean(#[trigger] st2.events[k]) by {
        if k < st.events.len() {
            assert(st2.events[k] == st.events[k]);
        }
    }
}

/// While a script is read, the events stay free of markup and no two open
/// stickers share an id.
pub proof fn lemma_parse_fold_invariants(ls: Seq<Seq<char>>)
    ensures
        events_clean(parse_fold(ls).events),
        distinct_ids(parse_fold(ls).pending),
    decreases ls.len(),
{
    if ls.len() > 0 {
        lemma_parse_fold_invariants(ls.drop_last());
        lemma_step_keeps_invariants(parse_fold(ls.drop_last()), ls.last());
    }
}

proof fn lemma_flush_clean(p: Seq<(Seq<char>, Seq<char>)>)
    ensures
        events_clean(flush(p)),
    decreases p.len(),
{
    if p.len() > 0 {
        let m = min_key_index(p);
        lemma_min_key_index_bounds(p);
        lemma_flush_clean(p.remove(m));
        lemma_display_text_clean(p[m].1);
        let f = flush(p);
        assert forall|k: int| 0 <= k < f.len() implies event_clean(#[trigger] f[k]) by {
            if k > 0 {
                assert(f[k] == flush(p.remove(m))[k - 1]);
            }
        }
    }
}

/// Every event of a parsed script is free of markup: no XML tag is left in
/// any text shown, and no `\n` escape in subtitles and stickers.
pub proof fn lemma_parse_output_clean(input: Seq<char>)
    ensures
        events_clean(spec_parse(input)),
{
    let st = parse_fold(lines(input));
    lemma_parse_fold_invariants(lines(input));
    lemma_flush_clean(st.pending);
    let r = spec_parse(input);
    assert forall|k: int| 0 <= k < r.len() implies event_clean(#[trigger] r[k]) by {
        if k < st.events.len() {
            assert(r[k] == st.events[k]);
        } else {
            assert(r[k] == flush(st.pending)[k - st.events.len()]);
        }
    }
}

/// A sticker line with a text whose `multi` parameter is missing, or is not
/// `true` in any ASCII case, is shown at its own line, whatever its id; the
/// open multi-part stickers stay as they were.
pub proof fn lemma_single_sticker_shown_at_once(st: ParseState, l: Seq<char>, t: Seq<char>)
    requires
        l.len() > 0,
        l[0] == '[',
        name_matches(first_tag_raw(l), key_sticker()),
        param_value(first_tag_raw(l), key_text()) == Some(t),
        match param_value(first_tag_raw(l), key_multi()) {
            Some(v) => !ascii_eq_ignore_case(v, word_true()),
            None => true,
        },
    ensures
        parse_step(st, l) == (ParseState {
            events: st.events.push(SpecEvent::Sticker(display_text(t))),
            pending: st.pending,
        }),
{
}

/// A one-line script that does not start with `[` is one narration: the
/// line without its XML tags (the line itself when it has no `<`).
pub proof fn lemma_narration_line(l: Seq<char>)
    requires
        l.len() > 0,
        l[0] != '[',
        !l.contains('\n'),
    ensures
        spec_parse(l) == seq![SpecEvent::Narration(spec_strip_xml(l))],
        !l.contains('<') ==> spec_parse(l) == seq![SpecEvent::Narration(l)],
{
    lemma_lines_single(l);
    assert(seq![l].drop_last() =~= Seq::<Seq<char>>::empty());
    let init = parse_fold(Seq::<Seq<char>>::empty());
    assert(init.events.len() == 0 && init.pending.len() == 0);
    assert(parse_fold(seq![l]) == parse_step(init, l));
    let st = parse_fold(seq![l]);
    assert(st.events =~= seq![SpecEvent::Narration(spec_strip_xml(l))]);
    assert(st.pending =~= Seq::<(Seq<char>, Seq<char>)>::empty());
    assert(spec_parse(l) =~= seq![SpecEvent::Narration(spec_strip_xml(l))]);
    if !l.contains('<') {
        lemma_strip_xml_identity(l);
    }
}

/// The pieces of a line `[w(k="v")]rest`: its first tag, the tag's name,
/// the value of `k`, and the text after it.
proof fn lemma_call_tag_line(w: Seq<char>, k: Seq<char>, v: Seq<char>, rest: Seq<char>)
    requires
        forall|x: int|
            0 <= x < w.len() ==> #[trigger] w[x] != '(' && w[x] != '=' && w[x] != '"' && w[x] != ']'
                && !is_white_space(w[x]),
        forall|x: int| 0 <= x < k.len() ==> #[trigger] k[x] != '"' && k[x] != ']',
        key_only_inside_words(w, '(', k),
        forall|x: int| 0 <= x < v.len() ==> #[trigger] v[x] != '\\',
        rest.len() == 0 || (rest[0] != '[' && !is_white_space(rest.last())),
    ensures
        first_tag_raw(seq!['['] + w + seq!['('] + k + seq!['=', '"'] + escape_quotes(v) + seq![
            '"',
            ')',
            ']',
        ] + rest) == w + seq!['('] + k + seq!['=', '"'] + escape_quotes(v) + seq!['"', ')'],
        tag_name_prefix(w + seq!['('] + k + seq!['=', '"'] + escape_quotes(v) + seq!['"', ')'])
            == w,
        param_value(w + seq!['('] + k + seq!['=', '"'] + escape_quotes(v) + seq!['"', ')'], k)
            == Some(v),
        trailing_text(seq!['['] + w + seq!['('] + k + seq!['=', '"'] + escape_quotes(v) + seq![
            '"',
            ')',
            ']',
        ] + rest) == if rest.len() > 0 {
            Some(rest)
        } else {
            None::<Seq<char>>
        },
{
    let e = escape_quotes(v);
    let w1 = w + seq!['('] + k + seq!['='];
    let w2 = seq![')'];
    let raw = w + seq!['('] + k + seq!['=', '"'] + e + seq!['"', ')'];
    assert(raw =~= w1 + seq!['"'] + e + seq!['"'] + w2);
    let l = seq!['['] + w + seq!['('] + k + seq!['=', '"'] + e + seq!['"', ')', ']'] + rest;
    assert(l =~= seq!['['] + raw + seq![']'] + rest);
    assert forall|x: int| 0 <= x < w1.len() implies #[trigger] w1[x] != '"' && w1[x] != ']' by {
        if x < w.len() {
            assert(w1[x] == w[x]);
        } else if x > w.len() && x < w.len() + 1 + k.len() {
            assert(w1[x] == k[x - w.len() - 1]);
        }
    }
    lemma_tag_with_quoted_string(w1, v, w2, rest);
    assert(first_tag_raw(l) =~= raw);
    let r = seq!['('] + k + seq!['=', '"'] + e + seq!['"', ')'];
    assert(raw =~= w + r);
    lemma_tag_name_is_leading_word(w, r);
    lemma_param_quoted(w, '(', k, Seq::empty(), Seq::empty(), v, seq![')']);
    assert(w + seq!['('] + k + Seq::<char>::empty() + seq!['='] + Seq::<char>::empty() + seq!['"']
        + e + seq!['"'] + seq![')'] =~= raw);
    let end = 1 + raw.len() as int;
    lemma_tag_end(l, 1, false);
    assert(l[end] == ']');
    assert(after_tag(l, end) == end + 1);
    if rest.len() > 0 {
        assert(l[end + 1] == rest[0]);
        assert(l.subrange(end + 1, l.len() as int) =~= rest);
        assert(trim_end(rest) == rest);
    } else {
        assert(end + 1 == l.len());
    }
}

/// A subtitle line `[Subtitle(text="v")]` (each `"` of `v` written `\"`)
/// parses to one subtitle showing `v`, tags stripped and escapes expanded.
pub proof fn lemma_subtitle_line(v: Seq<char>)
    requires
        forall|x: int| 0 <= x < v.len() ==> #[trigger] v[x] != '\\',
        !(seq!['[', 'S', 'u', 'b', 't', 'i', 't', 'l', 'e', '(', 't', 'e', 'x', 't', '=', '"']
            + escape_quotes(v) + seq!['"', ')', ']']).contains('\n'),
    ensures
        spec_parse(
            seq!['[', 'S', 'u', 'b', 't', 'i', 't', 'l', 'e', '(', 't', 'e', 'x', 't', '=', '"']
                + escape_quotes(v) + seq!['"', ')', ']'],
        ) == seq![SpecEvent::Subtitle(display_text(v))],
{
    let w = seq!['S', 'u', 'b', 't', 'i', 't', 'l', 'e'];
    let k = key_text();
    let l = seq!['['] + w + seq!['('] + k + seq!['=', '"'] + escape_quotes(v) + seq!['"', ')', ']']
        + Seq::<char>::empty();
    assert(l =~= seq!['[', 'S', 'u', 'b', 't', 'i', 't', 'l', 'e', '(', 't', 'e', 'x', 't', '=', '"']
        + escape_quotes(v) + seq!['"', ')', ']']);
    let pk = w + seq!['('] + k;
    assert(key_only_inside_words(w, '(', k)) by {
        assert forall|i: int| 0 <= i <= w.len() && #[trigger] pk.subrange(i, i + k.len()) == k implies false by {
            assert(pk.subrange(i, i + k.len())[0] == pk[i]);
            assert(pk.subrange(i, i + k.len())[1] == pk[i + 1]);
        }
    }
    lemma_call_tag_line(w, k, v, Seq::empty());
    lemma_lines_single(l);
    assert(seq![l].drop_last() =~= Seq::<Seq<char>>::empty());
    let init = parse_fold(Seq::<Seq<char>>::empty());
    assert(parse_fold(seq![l]) == parse_step(init, l));
    let raw = first_tag_raw(l);
    assert(name_matches(raw, key_subtitle()));
    assert(!name_matches(raw, key_name()));
    assert(!name_matches(raw, key_multiline()));
    let st = parse_fold(seq![l]);
    assert(st.events =~= seq![SpecEvent::Subtitle(display_text(v))]);
    assert(st.pending =~= Seq::<(Seq<char>, Seq<char>)>::empty());
    assert(spec_parse(l) =~= seq![SpecEvent::Subtitle(display_text(v))]);
}

/// A dialogue line `[multiline(name="s")]text` (each `"` of `s` written
/// `\"`) parses to one dialogue: speaker `s`, and `text` without its XML tags.
pub proof fn lemma_multiline_line(sp: Seq<char>, text: Seq<char>)
    requires
        forall|x: int| 0 <= x < sp.len() ==> #[trigger] sp[x] != '\\',
        text.len() > 0,
        text[0] != '[',
        !is_white_space(text.last()),
        !(seq!['[', 'm', 'u', 'l', 't', 'i', 'l', 'i', 'n', 'e', '(', 'n', 'a', 'm', 'e', '=', '"']
            + escape_quotes(sp) + seq!['"', ')', ']'] + text).contains('\n'),
    ensures
        spec_parse(
            seq!['[', 'm', 'u', 'l', 't', 'i', 'l', 'i', 'n', 'e', '(', 'n', 'a', 'm', 'e', '=', '"']
                + escape_quotes(sp) + seq!['"', ')', ']'] + text,
        ) == seq![SpecEvent::Dialogue { speaker: sp, text: spec_strip_xml(text) }],
{
    let w = seq!['m', 'u', 'l', 't', 'i', 'l', 'i', 'n', 'e'];
    let k = key_name();
    let l = seq!['['] + w + seq!['('] + k + seq!['=', '"'] + escape_quotes(sp) + seq!['"', ')', ']']
        + text;
    assert(l =~= seq!['[', 'm', 'u', 'l', 't', 'i', 'l', 'i', 'n', 'e', '(', 'n', 'a', 'm', 'e', '=', '"']
        + escape_quotes(sp) + seq!['"', ')', ']'] + text);
    let pk = w + seq!['('] + k;
    assert(key_only_inside_words(w, '(', k)) by {
        assert forall|i: int| 0 <= i <= w.len() && #[trigger] pk.subrange(i, i + k.len()) == k implies false by {
            assert(pk.subrange(i, i + k.len())[0] == pk[i]);
            assert(pk.subrange(i, i + k.len())[1] == pk[i + 1]);
        }
    }
    lemma_call_tag_line(w, k, sp, text);
    lemma_lines_single(l);
    assert(seq![l].drop_last() =~= Seq::<Seq<char>>::empty());
    let init = parse_fold(Seq::<Seq<char>>::empty());
    assert(parse_fold(seq![l]) == parse_step(init, l));
    let raw = first_tag_raw(l);
    assert(name_matches(raw, key_multiline()));
    let st = parse_fold(seq![l]);
    assert(st.events =~= seq![SpecEvent::Dialogue { speaker: sp, text: spec_strip_xml(text) }]);
    assert(st.pending =~= Seq::<(Seq<char>, Seq<char>)>::empty());
    assert(spec_parse(l) =~= seq![SpecEvent::Dialogue { speaker: sp, text: spec_strip_xml(text) }]);
}

/// A dialogue line `[name="s"]text` (each `"` of `s` written `\"`) parses
/// to one dialogue: speaker `s`, and `text` without its XML tags.
pub proof fn lemma_name_line(sp: Seq<char>, text: Seq<char>)
    requires
        forall|x: int| 0 <= x < sp.len() ==> #[trigger] sp[x] != '\\',
        text.len() > 0,
        text[0] != '[',
        !is_white_space(text.last()),
        !(seq!['[', 'n', 'a', 'm', 'e', '=', '"'] + escape_quotes(sp) + seq!['"', ']'] + text).contains(
            '\n',
        ),
    ensures
        spec_parse(seq!['[', 'n', 'a', 'm', 'e', '=', '"'] + escape_quotes(sp) + seq!['"', ']'] + text)
            == seq![SpecEvent::Dialogue { speaker: sp, text: spec_strip_xml(text) }],
{
    let e = escape_quotes(sp);
    let k = key_name();
    let w1 = seq!['n', 'a', 'm', 'e', '='];
    let raw = w1 + seq!['"'] + e + seq!['"'];
    let l = seq!['['] + raw + seq![']'] + text;
    assert(l =~= seq!['[', 'n', 'a', 'm', 'e', '=', '"'] + e + seq!['"', ']'] + text);
    lemma_tag_with_quoted_string(w1, sp, Seq::empty(), text);
    assert(raw + Seq::<char>::empty() =~= raw);
    assert(first_tag_raw(l) =~= raw);
    // The tag's name is `name`.
    let r = seq!['=', '"'] + e + seq!['"'];
    assert(raw =~= k + r);
    lemma_tag_name_is_leading_word(k, r);
    // Its `name` parameter is `sp`.
    assert(raw.subrange(0, 4) =~= k);
    assert(raw[4] == '=' && raw[5] == '"');
    assert(ws_end(raw, 4) == 4);
    assert(ws_end(raw, 5) == 5);
    assert(raw.subrange(6, 6 + e.len() as int) =~= e);
    assert(raw[6 + e.len() as int] == '"');
    lemma_quoted_escaped(raw, 6, sp);
    assert(param_at(raw, k, 0) == Some(sp));
    assert(param_value(raw, k) == Some(sp));
    // The text after the tag is `text`.
    let end = 1 + raw.len() as int;
    lemma_tag_end(l, 1, false);
    assert(l[end] == ']');
    assert(l[end + 1] == text[0]);
    assert(l.subrange(end + 1, l.len() as int) =~= text);
    assert(trim_end(text) == text);
    assert(trailing_text(l) == Some(text));
    lemma_lines_single(l);
    assert(seq![l].drop_last() =~= Seq::<Seq<char>>::empty());
    let init = parse_fold(Seq::<Seq<char>>::empty());
    assert(parse_fold(seq![l]) == parse_step(init, l));
    assert(name_matches(raw, key_name()));
    let st = parse_fold(seq![l]);
    assert(st.events =~= seq![SpecEvent::Dialogue { speaker: sp, text: spec_strip_xml(text) }]);
    assert(st.pending =~= Seq::<(Seq<char>, Seq<char>)>::empty());
    assert(spec_parse(l) =~= seq![SpecEvent::Dialogue { speaker: sp, text: spec_strip_xml(text) }]);
}

/// A line the parser makes nothing of: empty, or starting with a tag whose
/// leading word is, ignoring ASCII case, none of `name`, `multiline`,
/// `subtitle` and `sticker`.
pub open spec fn unrecognized_line(l: Seq<char>) -> bool {
    ||| l.len() == 0
    ||| {
        &&& l[0] == '['
        &&& !name_matches(first_tag_raw(l), key_name())
        &&& !name_matches(first_tag_raw(l), key_multiline())
        &&& !name_matches(first_tag_raw(l), key_subtitle())
        &&& !name_matches(first_tag_raw(l), key_sticker())
    }
}

proof fn lemma_unrecognized_fold(ls: Seq<Seq<char>>)
    requires
        forall|k: int| 0 <= k < ls.len() ==> unrecognized_line(#[trigger] ls[k]),
    ensures
        parse_fold(ls).events.len() == 0,
        parse_fold(ls).pending.len() == 0,
    decreases ls.len(),
{
    if ls.len() > 0 {
        assert forall|k: int| 0 <= k < ls.drop_last().len() implies unrecognized_line(
            #[trigger] ls.drop_last()[k],
        ) by {
            assert(ls.drop_last()[k] == ls[k]);
        }
        assert(unrecognized_line(ls[ls.len() - 1]));
        lemma_unrecognized_fold(ls.drop_last());
    }
}

/// A script whose lines are all empty or unrecognized tags parses to no events.
pub proof fn lemma_unrecognized_lines_give_nothing(input: Seq<char>)
    requires
        forall|k: int| 0 <= k < lines(input).len() ==> unrecognized_line(#[trigger] lines(input)[k]),
    ensures
        spec_parse(input) == Seq::<SpecEvent>::empty(),
{
    lemma_unrecognized_fold(lines(input));
    let st = parse_fold(lines(input));
    assert(st.pending =~= Seq::<(Seq<char>, Seq<char>)>::empty());
    assert(spec_parse(input) =~= Seq::<SpecEvent>::empty());
}

/// A sticker line that adds a part to a multi-part sticker.
pub open spec fn opens_multi_sticker(l: Seq<char>) -> bool {
    &&& l.len() > 0
    &&& l[0] == '['
    &&& name_matches(first_tag_raw(l), key_sticker())
    &&& multi_flag(first_tag_raw(l))
}

proof fn lemma_step_events_prefix(e0: Seq<SpecEvent>, st: ParseState, l: Seq<char>)
    ensures
        parse_step(ParseState { events: e0 + st.events, pending: st.pending }, l).events == e0
            + parse_step(st, l).events,
        parse_step(ParseState { events: e0 + st.events, pending: st.pending }, l).pending
            == parse_step(st, l).pending,
{
    let s1 = parse_step(st, l);
    let s2 = parse_step(ParseState { events: e0 + st.events, pending: st.pending }, l);
    if s1.events.len() == st.events.len() {
        assert(s1.events == st.events);
        assert(s2.events == e0 + st.events);
    } else {
        assert(s1.events == st.events.push(s1.events.last()));
        assert(s2.events == (e0 + st.events).push(s1.events.last()));
        assert(s2.events =~= e0 + s1.events);
    }
}

proof fn lemma_fold_concat(ls1: Seq<Seq<char>>, ls2: Seq<Seq<char>>)
    requires
        parse_fold(ls1).pending.len() == 0,
    ensures
        parse_fold(ls1 + ls2).events == parse_fold(ls1).events + parse_fold(ls2).events,
        parse_fold(ls1 + ls2).pending == parse_fold(ls2).pending,
    decreases ls2.len(),
{
    if ls2.len() == 0 {
        assert(ls1 + ls2 =~= ls1);
        assert(parse_fold(ls1).events + parse_fold(ls2).events =~= parse_fold(ls1).events);
        assert(parse_fold(ls1).pending =~= parse_fold(ls2).pending);
    } else {
        assert((ls1 + ls2).drop_last() =~= ls1 + ls2.drop_last());
        assert((ls1 + ls2).last() == ls2.last());
        lemma_fold_concat(ls1, ls2.drop_last());
        let prev = parse_fold(ls2.drop_last());
        let e0 = parse_fold(ls1).events;
        assert(parse_fold(ls1 + ls2.drop_last()) == ParseState {
            events: e0 + prev.events,
            pending: prev.pending,
        });
        lemma_step_events_prefix(e0, prev, ls2.last());
    }
}

proof fn lemma_no_multi_no_pending(ls: Seq<Seq<char>>)
    requires
        forall|k: int| 0 <= k < ls.len() ==> !opens_multi_sticker(#[trigger] ls[k]),
    ensures
        parse_fold(ls).pending.len() == 0,
    decreases ls.len(),
{
    if ls.len() > 0 {
        assert forall|k: int| 0 <= k < ls.drop_last().len() implies !opens_multi_sticker(
            #[trigger] ls.drop_last()[k],
        ) by {
            assert(ls.drop_last()[k] == ls[k]);
        }
        assert(!opens_multi_sticker(ls[ls.len() - 1]));
        lemma_no_multi_no_pending(ls.drop_last());
    }
}

/// Scripts without multi-part stickers are parsed line by line: parsing two
/// scripts joined by a newline gives the events of the first, then those of
/// the second. The first must hold no multi-part sticker line (its parts
/// would wait for the end of the whole input) and must not end with `\r`
/// (which the joining newline would take as a line ending).
pub proof fn lemma_parse_concat(a: Seq<char>, b: Seq<char>)
    requires
        a.len() == 0 || a.last() != '\r',
        forall|k: int| 0 <= k < lines(a).len() ==> !opens_multi_sticker(#[trigger] lines(a)[k]),
    ensures
        spec_parse(a + seq!['\n'] + b) == spec_parse(a) + spec_parse(b),
{
    lemma_lines_join(a, b);
    lemma_no_multi_no_pending(lines(a));
    let la = if lines_fold(a).1.len() > 0 {
        lines(a)
    } else {
        lines(a).push(Seq::<char>::empty())
    };
    if lines_fold(a).1.len() == 0 {
        assert(la.drop_last() =~= lines(a));
    }
    assert(parse_fold(la) == parse_fold(lines(a)));
    lemma_fold_concat(la, lines(b));
    let sa = parse_fold(lines(a));
    let sb = parse_fold(lines(b));
    assert(sa.pending =~= Seq::<(Seq<char>, Seq<char>)>::empty());
    assert(spec_parse(a) =~= sa.events);
    assert(spec_parse(a + seq!['\n'] + b) =~= sa.events + (sb.events + flush(sb.pending)));
}

proof fn lemma_common_prefix_end(a: Seq<char>, b: Seq<char>, i: int)
    requires
        0 <= i <= a.len(),
        i <= b.len(),
        forall|x: int| 0 <= x < i ==> a[x] == b[x],
    ensures
        i <= common_prefix_end(a, b, i) <= a.len(),
        common_prefix_end(a, b, i) <= b.len(),
        forall|x: int| 0 <= x < common_prefix_end(a, b, i) ==> a[x] == b[x],
        common_prefix_end(a, b, i) < a.len() && common_prefix_end(a, b, i) < b.len() ==> a[common_prefix_end(a, b, i)] != b[common_prefix_end(a, b, i)],
        common_prefix_end(a, b, i) == common_prefix_end(b, a, i),
    decreases a.len() - i,
{
    if i < a.len() && i < b.len() && a[i] == b[i] {
        lemma_common_prefix_end(a, b, i + 1);
    }
}

/// The common prefix end is the first index where the two differ.
proof fn lemma_common_prefix_end_at(a: Seq<char>, b: Seq<char>, k: int)
    requires
        0 <= k <= a.len(),
        k <= b.len(),
        forall|x: int| 0 <= x < k ==> a[x] == b[x],
        k == a.len() || k == b.len() || a[k] != b[k],
    ensures
        common_prefix_end(a, b, 0) == k,
{
    lemma_common_prefix_end(a, b, 0);
    let c = common_prefix_end(a, b, 0);
    if c < k {
        assert(a[c] == b[c]);
    }
}

/// No id comes before itself.
pub proof fn lemma_key_lt_irreflexive(a: Seq<char>)
    ensures
        !key_lt(a, a),
{
    lemma_common_prefix_end(a, a, 0);
}

/// Of two different ids, one comes before the other.
pub proof fn lemma_key_lt_total(a: Seq<char>, b: Seq<char>)
    requires
        a != b,
    ensures
        key_lt(a, b) || key_lt(b, a),
{
    lemma_common_prefix_end(a, b, 0);
    lemma_common_prefix_end(b, a, 0);
    let k = common_prefix_end(a, b, 0);
    if !(k < a.len() && k < b.len()) {
        if a.len() == b.len() {
            assert(a =~= b);
        }
    } else {
        assert(a[k] != b[k]);
        assert((a[k] as int) != (b[k] as int));
    }
}

/// The order of ids is transitive.
pub proof fn lemma_key_lt_transitive(a: Seq<char>, b: Seq<char>, c: Seq<char>)
    requires
        key_lt(a, b),
        key_lt(b, c),
    ensures
        key_lt(a, c),
{
    lemma_common_prefix_end(a, b, 0);
    lemma_common_prefix_end(b, c, 0);
    let k1 = common_prefix_end(a, b, 0);
    let k2 = common_prefix_end(b, c, 0);
    if k1 < k2 {
        if k1 < a.len() && k1 < b.len() {
            assert(c[k1] == b[k1]);
            lemma_common_prefix_end_at(a, c, k1);
        } else {
            lemma_common_prefix_end_at(a, c, k1);
        }
    } else if k1 > k2 {
        if k2 < b.len() && k2 < c.len() {
            assert(a[k2] == b[k2]);
            lemma_common_prefix_end_at(a, c, k2);
        }
    } else {
        if k1 < a.len() && k1 < b.len() {
            if k2 < c.len() {
                assert((a[k1] as int) < (c[k1] as int));
                lemma_common_prefix_end_at(a, c, k1);
            }
        } else {
            lemma_common_prefix_end_at(a, c, k1);
        }
    }
}

/// No id comes before the least one.
proof fn lemma_min_key_index_least(p: Seq<(Seq<char>, Seq<char>)>)
    requires
        p.len() > 0,
    ensures
        forall|j: int| 0 <= j < p.len() ==> !key_lt(#[trigger] p[j].0, p[min_key_index(p)].0),
    decreases p.len(),
{
    lemma_min_key_index_bounds(p);
    if p.len() == 1 {
        lemma_key_lt_irreflexive(p[0].0);
    } else {
        let q = p.drop_last();
        lemma_min_key_index_least(q);
        lemma_min_key_index_bounds(q);
        let m0 = min_key_index(q);
        let m = min_key_index(p);
        assert forall|j: int| 0 <= j < p.len() implies !key_lt(#[trigger] p[j].0, p[m].0) by {
            if j < p.len() - 1 {
                assert(p[j] == q[j]);
                assert(!key_lt(q[j].0, q[m0].0));
                if m != m0 && key_lt(p[j].0, p[m].0) {
                    lemma_key_lt_transitive(p[j].0, p[m].0, q[m0].0);
                }
            } else if m == p.len() - 1 {
                lemma_key_lt_irreflexive(p[m].0);
            }
        }
    }
}

/// The ids of the open stickers, in the order `flush` shows them.
pub open spec fn flush_ids(p: Seq<(Seq<char>, Seq<char>)>) -> Seq<Seq<char>>
    decreases p.len(),
{
    if p.len() == 0 {
        Seq::empty()
    } else {
        let m = min_key_index(p);
        proof {
            lemma_min_key_index_bounds(p);
        }
        seq![p[m].0] + flush_ids(p.remove(m))
    }
}

proof fn lemma_flush_ids_from(p: Seq<(Seq<char>, Seq<char>)>)
    ensures
        flush_ids(p).len() == p.len(),
        forall|k: int| 0 <= k < flush_ids(p).len() ==> exists|j: int| 0 <= j < p.len() && #[trigger] flush_ids(p)[k] == p[j].0,
    decreases p.len(),
{
    if p.len() > 0 {
        let m = min_key_index(p);
        lemma_min_key_index_bounds(p);
        let q = p.remove(m);
        lemma_flush_ids_from(q);
        let f = flush_ids(p);
        assert forall|k: int| 0 <= k < f.len() implies exists|j: int| 0 <= j < p.len() && #[trigger] f[k] == p[j].0 by {
            if k == 0 {
                assert(f[0] == p[m].0);
            } else {
                assert(f[k] == flush_ids(q)[k - 1]);
                let j = choose|j: int| 0 <= j < q.len() && flush_ids(q)[k - 1] == q[j].0;
                let j2 = if j < m { j } else { j + 1 };
                assert(q[j] == p[j2]);
            }
        }
    }
}

/// Stickers left open at the end are shown in increasing order of id, each once.
pub proof fn lemma_flush_sorted(p: Seq<(Seq<char>, Seq<char>)>)
    requires
        distinct_ids(p),
    ensures
        flush_ids(p).len() == p.len(),
        forall|i: int, j: int| 0 <= i < j < flush_ids(p).len() ==> key_lt(#[trigger] flush_ids(p)[i], #[trigger] flush_ids(p)[j]),
    decreases p.len(),
{
    lemma_flush_ids_from(p);
    if p.len() > 0 {
        let m = min_key_index(p);
        lemma_min_key_index_bounds(p);
        lemma_min_key_index_least(p);
        let q = p.remove(m);
        assert(distinct_ids(q)) by {
            assert forall|a: int, b: int| 0 <= a < b < q.len() implies #[trigger] q[a].0 != #[trigger] q[b].0 by {
                let a2 = if a < m { a } else { a + 1 };
                let b2 = if b < m { b } else { b + 1 };
                assert(q[a] == p[a2] && q[b] == p[b2]);
            }
        }
        lemma_flush_sorted(q);
        lemma_flush_ids_from(q);
        let f = flush_ids(p);
        assert forall|i: int, j: int| 0 <= i < j < f.len() implies key_lt(#[trigger] f[i], #[trigger] f[j]) by {
            assert(f[j] == flush_ids(q)[j - 1]);
            if i == 0 {
                let x = choose|x: int| 0 <= x < q.len() && flush_ids(q)[j - 1] == q[x].0;
                let x2 = if x < m { x } else { x + 1 };
                assert(q[x] == p[x2]);
                assert(x2 != m);
                assert(p[x2].0 != p[m].0);
                assert(!key_lt(p[x2].0, p[m].0));
                lemma_key_lt_total(p[m].0, p[x2].0);
            } else {
                assert(f[i] == flush_ids(q)[i - 1]);
            }
        }
    }
}

/// The stickers still open at the end of a script are shown in increasing
/// order of id, each once.
pub proof fn lemma_parse_flush_sorted(input: Seq<char>)
    ensures
        forall|i: int, j: int|
            0 <= i < j < flush_ids(parse_fold(lines(input)).pending).len() ==> key_lt(
                #[trigger] flush_ids(parse_fold(lines(input)).pending)[i],
                #[trigger] flush_ids(parse_fold(lines(input)).pending)[j],
            ),
{
    lemma_parse_fold_invariants(lines(input));
    lemma_flush_sorted(parse_fold(lines(input)).pending);
}

/// The text collected for the open sticker with this id, if one is open.
pub open spec fn pending_lookup(p: Seq<(Seq<char>, Seq<char>)>, id: Seq<char>) -> Option<
    Seq<char>,
> {
    let i = pending_index(p, id, 0);
    if i < p.len() {
        Some(p[i].1)
    } else {
        None
    }
}

/// The content of a line's first tag, when that tag is a sticker.
pub open spec fn sticker_line_raw(l: Seq<char>) -> Option<Seq<char>> {
    if l.len() > 0 && l[0] == '[' && name_matches(first_tag_raw(l), key_sticker()) {
        Some(first_tag_raw(l))
    } else {
        None
    }
}

/// What one line does to the parts collected for sticker `id` (`None` when
/// no such sticker is open): a multi-part line for `id` with a text adds
/// that text; a line for `id` without text closes it.
pub open spec fn open_step(prev: Option<Seq<char>>, l: Seq<char>, id: Seq<char>) -> Option<
    Seq<char>,
> {
    match sticker_line_raw(l) {
        Some(raw) => if param_value(raw, key_id()) == Some(id) {
            match param_value(raw, key_text()) {
                Some(t) => if multi_flag(raw) {
                    Some(
                        match prev {
                            Some(q) => q + t,
                            None => t,
                        },
                    )
                } else {
                    prev
                },
                None => None,
            }
        } else {
            prev
        },
        None => prev,
    }
}

/// The parts of sticker `id` still open after these lines, concatenated in
/// the order of the lines.
pub open spec fn open_parts(ls: Seq<Seq<char>>, id: Seq<char>) -> Option<Seq<char>>
    decreases ls.len(),
{
    if ls.len() == 0 {
        None
    } else {
        open_step(open_parts(ls.drop_last(), id), ls.last(), id)
    }
}

proof fn lemma_index_of_distinct(p: Seq<(Seq<char>, Seq<char>)>, k: int, x: Seq<char>)
    requires
        distinct_ids(p),
        0 <= k < p.len(),
        p[k].0 == x,
    ensures
        pending_index(p, x, 0) == k,
{
    lemma_pending_index(p, x, 0);
    let r = pending_index(p, x, 0);
    if r < p.len() && r != k {
        if r < k {
            assert(p[r].0 != p[k].0);
        } else {
            assert(p[k].0 != p[r].0);
        }
    }
}

proof fn lemma_remove_lookup(p: Seq<(Seq<char>, Seq<char>)>, j: int, x: Seq<char>)
    requires
        distinct_ids(p),
        0 <= j < p.len(),
    ensures
        pending_lookup(p.remove(j), x) == if x == p[j].0 {
            None
        } else {
            pending_lookup(p, x)
        },
{
    let q = p.remove(j);
    lemma_pending_index(q, x, 0);
    lemma_pending_index(p, x, 0);
    let r = pending_index(q, x, 0);
    assert(distinct_ids(q)) by {
        assert forall|a: int, b: int| 0 <= a < b < q.len() implies #[trigger] q[a].0
            != #[trigger] q[b].0 by {
            let a2 = if a < j { a } else { a + 1 };
            let b2 = if b < j { b } else { b + 1 };
            assert(q[a] == p[a2] && q[b] == p[b2]);
        }
    }
    if r < q.len() {
        let r2 = if r < j { r } else { r + 1 };
        assert(q[r] == p[r2]);
        lemma_index_of_distinct(p, r2, x);
        if x == p[j].0 {
            lemma_index_of_distinct(p, j, x);
        }
    } else {
        let k = pending_index(p, x, 0);
        if k < p.len() && k != j {
            let k2 = if k < j { k } else { k - 1 };
            assert(q[k2] == p[k]);
        }
    }
}

proof fn lemma_append_lookup(p: Seq<(Seq<char>, Seq<char>)>, i: Seq<char>, t: Seq<char>, x: Seq<char>)
    ensures
        pending_lookup(append_pending(p, i, t), x) == if x == i {
            Some(
                match pending_lookup(p, i) {
                    Some(q) => q + t,
                    None => t,
                },
            )
        } else {
            pending_lookup(p, x)
        },
{
    lemma_pending_index(p, i, 0);
    lemma_pending_index(p, x, 0);
    let k = pending_index(p, i, 0);
    if k < p.len() {
        lemma_pending_index_update(p, k, (p[k].0, p[k].1 + t), x, 0);
    } else {
        lemma_pending_index_push(p, (i, t), x, 0);
    }
}

proof fn lemma_step_lookup(st: ParseState, l: Seq<char>, id: Seq<char>)
    requires
        distinct_ids(st.pending),
    ensures
        pending_lookup(parse_step(st, l).pending, id) == open_step(
            pending_lookup(st.pending, id),
            l,
            id,
        ),
{
    let p = st.pending;
    match sticker_line_raw(l) {
        Some(raw) => {
            let idp = param_value(raw, key_id());
            match param_value(raw, key_text()) {
                Some(t) => {
                    if multi_flag(raw) {
                        if let Some(i) = idp {
                            lemma_append_lookup(p, i, t, id);
                        }
                    }
                },
                None => {
                    if let Some(i) = idp {
                        lemma_pending_index(p, i, 0);
                        let k = pending_index(p, i, 0);
                        if k < p.len() {
                            lemma_remove_lookup(p, k, id);
                        } else if i == id {
                            assert(pending_lookup(p, id) == None::<Seq<char>>);
                        }
                    }
                },
            }
        },
        None => {},
    }
}

/// While a script is read, the text held for each open sticker is the
/// concatenation, in line order, of the parts given for its id since it was
/// last closed.
pub proof fn lemma_pending_from_lines(ls: Seq<Seq<char>>, id: Seq<char>)
    ensures
        pending_lookup(parse_fold(ls).pending, id) == open_parts(ls, id),
    decreases ls.len(),
{
    if ls.len() > 0 {
        lemma_pending_from_lines(ls.drop_last(), id);
        lemma_parse_fold_invariants(ls.drop_last());
        lemma_step_lookup(parse_fold(ls.drop_last()), ls.last(), id);
    }
}

proof fn lemma_flush_lookup(p: Seq<(Seq<char>, Seq<char>)>)
    requires
        distinct_ids(p),
    ensures
        flush(p).len() == flush_ids(p).len(),
        forall|k: int|
            0 <= k < flush_ids(p).len() ==> pending_lookup(p, #[trigger] flush_ids(p)[k]) is Some
                && flush(p)[k] == SpecEvent::Sticker(
                display_text(pending_lookup(p, flush_ids(p)[k])->0),
            ),
        forall|x: Seq<char>| pending_lookup(p, x) is Some ==> flush_ids(p).contains(x),
    decreases p.len(),
{
    if p.len() > 0 {
        let m = min_key_index(p);
        lemma_min_key_index_bounds(p);
        let q = p.remove(m);
        assert(distinct_ids(q)) by {
            assert forall|a: int, b: int| 0 <= a < b < q.len() implies #[trigger] q[a].0
                != #[trigger] q[b].0 by {
                let a2 = if a < m { a } else { a + 1 };
                let b2 = if b < m { b } else { b + 1 };
                assert(q[a] == p[a2] && q[b] == p[b2]);
            }
        }
        lemma_flush_lookup(q);
        lemma_flush_ids_from(q);
        lemma_index_of_distinct(p, m, p[m].0);
        let f = flush(p);
        let ids = flush_ids(p);
        assert forall|k: int| 0 <= k < ids.len() implies pending_lookup(p, #[trigger] ids[k]) is Some
            && f[k] == SpecEvent::Sticker(display_text(pending_lookup(p, ids[k])->0)) by {
            if k > 0 {
                assert(ids[k] == flush_ids(q)[k - 1]);
                assert(f[k] == flush(q)[k - 1]);
                let x = choose|x: int| 0 <= x < q.len() && flush_ids(q)[k - 1] == q[x].0;
                let x2 = if x < m { x } else { x + 1 };
                assert(q[x] == p[x2]);
                assert(ids[k] != p[m].0);
                lemma_remove_lookup(p, m, ids[k]);
            }
        }
        assert forall|x: Seq<char>| pending_lookup(p, x) is Some implies ids.contains(x) by {
            if x == p[m].0 {
                assert(ids[0] == x);
            } else {
                lemma_remove_lookup(p, m, x);
                assert(pending_lookup(q, x) is Some);
                assert(flush_ids(q).contains(x));
                let k = choose|k: int| 0 <= k < flush_ids(q).len() && flush_ids(q)[k] == x;
                assert(ids == seq![p[m].0] + flush_ids(q));
                assert(ids[k + 1] == x);
            }
        }
    }
}

/// The stickers still open at the end of a script come after the events of
/// its lines, one for each open id, in increasing order of id; each shows
/// the parts given for its id, concatenated in line order.
pub proof fn lemma_parse_flush_from_lines(input: Seq<char>)
    ensures
        spec_parse(input) == parse_fold(lines(input)).events + flush(
            parse_fold(lines(input)).pending,
        ),
        flush(parse_fold(lines(input)).pending).len() == flush_ids(
            parse_fold(lines(input)).pending,
        ).len(),
        forall|i: int, j: int|
            0 <= i < j < flush_ids(parse_fold(lines(input)).pending).len() ==> key_lt(
                #[trigger] flush_ids(parse_fold(lines(input)).pending)[i],
                #[trigger] flush_ids(parse_fold(lines(input)).pending)[j],
            ),
        forall|k: int|
            0 <= k < flush_ids(parse_fold(lines(input)).pending).len() ==> open_parts(
                lines(input),
                #[trigger] flush_ids(parse_fold(lines(input)).pending)[k],
            ) is Some && flush(parse_fold(lines(input)).pending)[k] == SpecEvent::Sticker(
                display_text(
                    open_parts(lines(input), flush_ids(parse_fold(lines(input)).pending)[k])->0,
                ),
            ),
        forall|id: Seq<char>|
            open_parts(lines(input), id) is Some ==> #[trigger] flush_ids(
                parse_fold(lines(input)).pending,
            ).contains(id),
{
    let ls = lines(input);
    let p = parse_fold(ls).pending;
    lemma_parse_fold_invariants(ls);
    lemma_parse_flush_sorted(input);
    lemma_flush_lookup(p);
    assert forall|k: int| 0 <= k < flush_ids(p).len() implies open_parts(
        ls,
        #[trigger] flush_ids(p)[k],
    ) is Some && flush(p)[k] == SpecEvent::Sticker(display_text(open_parts(ls, flush_ids(p)[k])->0)) by {
        lemma_pending_from_lines(ls, flush_ids(p)[k]);
    }
    assert forall|id: Seq<char>| open_parts(ls, id) is Some implies #[trigger] flush_ids(p).contains(
        id,
    ) by {
        lemma_pending_from_lines(ls, id);
    }
}

/// Handles one line of the script.
fn parse_line(line: &Vec<char>, events: &mut Vec<Event>, pending: &mut Vec<(Vec<char>, Vec<char>)>)
    ensures
        state_of(final(events)@, final(pending)@) == parse_step(
            state_of(old(events)@, old(pending)@),
            line@,
        ),
{
    let len = line.len();
    if len == 0 {
        return ;
    }
    // Plain text line (no tag).
    if line[0] != '[' {
        // Narration lines rarely hold XML tags; copy them as they are.
        let text = if contains_char(line, '<') {
            strip_xml_chars(line)
        } else {
            proof {
                lemma_strip_xml_identity(line@);
            }
            vec_from_range(line, 0, len)
        };
        assert(line@.subrange(0, len as int) =~= line@);
        events.push(Event::Narration(string_of(&text)));
        assert(events_view(events@) =~= events_view(old(events)@).push(
            SpecEvent::Narration(spec_strip_xml(line@)),
        ));
        return ;
    }
    // Only tags that start with n(ame), m(ultiline) or s(ticker/ubtitle) matter.
    proof {
        let raw = first_tag_raw(line@);
        if name_matches(raw, key_name()) {
            lemma_name_first_char(line@, key_name());
        }
        if name_matches(raw, key_multiline()) {
            lemma_name_first_char(line@, key_multiline());
        }
        if name_matches(raw, key_subtitle()) {
            lemma_name_first_char(line@, key_subtitle());
        }
        if name_matches(raw, key_sticker()) {
            lemma_name_first_char(line@, key_sticker());
        }
    }
    if len < 2 {
        return ;
    }
    let first = line[1];
    if !eq_ignore_ascii_case_char(first, 'n') && !eq_ignore_ascii_case_char(first, 'm')
        && !eq_ignore_ascii_case_char(first, 's') {
        return ;
    }
    let (raw, trailing) = scan_tag_line(line);
    let k_name = vec!['n', 'a', 'm', 'e'];
    let k_multiline = vec!['m', 'u', 'l', 't', 'i', 'l', 'i', 'n', 'e'];
    let k_subtitle = vec!['s', 'u', 'b', 't', 'i', 't', 'l', 'e'];
    let k_sticker = vec!['s', 't', 'i', 'c', 'k', 'e', 'r'];
    let k_text = vec!['t', 'e', 'x', 't'];
    assert(k_name@ == key_name());
    assert(k_multiline@ == key_multiline());
    assert(k_subtitle@ == key_subtitle());
    assert(k_sticker@ == key_sticker());
    assert(k_text@ == key_text());
    if tag_name_eq(&raw, &k_name) || tag_name_eq(&raw, &k_multiline) {
        match trailing {
            Some(text) => {
                match find_param(&raw, &k_name) {
                    Some(speaker) => {
                        let said = strip_xml_chars(&text);
                        events.push(
                            Event::Dialogue { speaker: string_of(&speaker), text: string_of(&said) },
                        );
                        assert(events_view(events@) =~= events_view(old(events)@).push(
                            SpecEvent::Dialogue { speaker: speaker@, text: spec_strip_xml(text@) },
                        ));
                    },
                    None => {},
                }
            },
            None => {},
        }
    } else if tag_name_eq(&raw, &k_subtitle) {
        match find_param(&raw, &k_text) {
            Some(t) => {
                let shown = process_display_text(&t);
                events.push(Event::Subtitle(string_of(&shown)));
                assert(events_view(events@) =~= events_view(old(events)@).push(
                    SpecEvent::Subtitle(display_text(t@)),
                ));
            },
            None => {},
        }
    } else if tag_name_eq(&raw, &k_sticker) {
        sticker_line(&raw, events, pending);
    }
}

/// Parse an entire input file's content into a sequence of semantic events.
pub fn parse(input: &str) -> (events: Vec<Event>)
    ensures
        events_view(events@) == spec_parse(input@),
{
    let chars = chars_of(input);
    let ls = split_lines(&chars);
    let ghost lv = char_vecs_view(ls@);
    let mut events: Vec<Event> = Vec::new();
    let mut pending: Vec<(Vec<char>, Vec<char>)> = Vec::new();
    let mut n: usize = 0;
    assert(events_view(events@) =~= Seq::<SpecEvent>::empty());
    assert(pending_view(pending@) =~= Seq::<(Seq<char>, Seq<char>)>::empty());
    assert(lv.take(0) =~= Seq::<Seq<char>>::empty());
    while n < ls.len()
        invariant
            n <= ls.len(),
            lv == char_vecs_view(ls@),
            lv == lines(input@),
            state_of(events@, pending@) == parse_fold(lv.take(n as int)),
        decreases ls.len() - n,
    {
        assert(lv.take(n + 1).drop_last() =~= lv.take(n as int));
        assert(lv.take(n + 1).last() == ls@[n as int]@);
        parse_line(&ls[n], &mut events, &mut pending);
        n += 1;
    }
    assert(lv.take(n as int) =~= lv);
    // Flush any remaining multi-stickers that were never closed, in order of id.
    assert(events_view(events@) + flush(pending_view(pending@)) =~= spec_parse(input@));
    while pending.len() > 0
        invariant
            events_view(events@) + flush(pending_view(pending@)) == spec_parse(input@),
        decreases pending.len(),
    {
        let ghost before = events_view(events@);
        let ghost p = pending_view(pending@);
        let m = min_pending_index(&pending);
        let (_, text) = pending.remove(m);
        let shown = process_display_text(&text);
        events.push(Event::Sticker(string_of(&shown)));
        assert(pending_view(pending@) =~= p.remove(m as int));
        assert(events_view(events@) =~= before.push(SpecEvent::Sticker(display_text(p[m as int].1))));
        assert(events_view(events@) + flush(pending_view(pending@)) =~= before + flush(p));
    }
    assert(events_view(events@) + flush(pending_view(pending@)) =~= events_view(events@));
    events
}

} // verus!
