//! Splitting one script line into tags and text, and reading tag parameters.

use vstd::prelude::*;

use crate::text::{
    all_ascii, ascii_eq_ignore_case, ascii_lowercase_of, char_is_whitespace, chars_of, eq_ignore_ascii_case, is_white_space,
    push_char, str_to_lowercase, string_from_range, trim_end, trim_end_index, unicode_lowercase,
    vec_from_range,
};

verus! {

/// A token produced by the lexer from a single input line.
#[derive(Debug, Clone, PartialEq)]
pub enum Token {
    /// A bracketed tag. `name` is lowercase-normalized for easy matching.
    /// `raw_inner` is everything between `[` and `]`, preserved for parameter extraction.
    Tag { name: String, raw_inner: String },
    /// Text content (either standalone plain text or trailing text after tags).
    Text(String),
}

/// The mathematical value of a [`Token`].
pub enum SpecToken {
    Tag { name: Seq<char>, raw_inner: Seq<char> },
    Text(Seq<char>),
}

impl View for Token {
    type V = SpecToken;

    open spec fn view(&self) -> SpecToken {
        match self {
            Token::Tag { name, raw_inner } => SpecToken::Tag { name: name@, raw_inner: raw_inner@ },
            Token::Text(t) => SpecToken::Text(t@),
        }
    }
}

/// The values of a sequence of tokens.
pub open spec fn tokens_view(ts: Seq<Token>) -> Seq<SpecToken> {
    ts.map_values(|t: Token| t@)
}

/// Where the tag whose content starts at `j` ends: the index of its closing
/// `]`, or the end of `t` when it is never closed. A `]` inside a quoted
/// string does not close the tag, and `\"` inside a quoted string does not
/// end the string.
pub open spec fn tag_end(t: Seq<char>, j: int, in_quote: bool) -> int
    decreases t.len() - j,
{
    if j < 0 || j >= t.len() {
        t.len() as int
    } else if in_quote {
        if t[j] == '\\' && j + 1 < t.len() && t[j + 1] == '"' {
            tag_end(t, j + 2, true)
        } else if t[j] == '"' {
            tag_end(t, j + 1, false)
        } else {
            tag_end(t, j + 1, true)
        }
    } else {
        if t[j] == '"' {
            tag_end(t, j + 1, true)
        } else if t[j] == ']' {
            j
        } else {
            tag_end(t, j + 1, false)
        }
    }
}

/// A tag's end lies between its start and the end of the line, and is a `]`
/// unless it is the end of the line.
pub proof fn lemma_tag_end(t: Seq<char>, j: int, in_quote: bool)
    requires
        0 <= j <= t.len(),
    ensures
        j <= tag_end(t, j, in_quote) <= t.len(),
        tag_end(t, j, in_quote) < t.len() ==> t[tag_end(t, j, in_quote)] == ']',
    decreases t.len() - j,
{
    if j < t.len() {
        if in_quote {
            if t[j] == '\\' && j + 1 < t.len() && t[j + 1] == '"' {
                lemma_tag_end(t, j + 2, true);
            } else if t[j] == '"' {
                lemma_tag_end(t, j + 1, false);
            } else {
                lemma_tag_end(t, j + 1, true);
            }
        } else {
            if t[j] == '"' {
                lemma_tag_end(t, j + 1, true);
            } else if t[j] != ']' {
                lemma_tag_end(t, j + 1, false);
            }
        }
    }
}

/// A character that ends a tag's name.
pub open spec fn stops_tag_name(c: char) -> bool {
    c == '(' || c == '=' || is_white_space(c)
}

/// The end of the tag name that starts at `i`.
pub open spec fn tag_name_end(raw: Seq<char>, i: int) -> int
    decreases raw.len() - i,
{
    if i < 0 || i >= raw.len() || stops_tag_name(raw[i]) {
        i
    } else {
        tag_name_end(raw, i + 1)
    }
}

/// A tag name's end lies between its start and the end of the content.
pub proof fn lemma_tag_name_end_bounds(raw: Seq<char>, i: int)
    requires
        0 <= i <= raw.len(),
    ensures
        i <= tag_name_end(raw, i) <= raw.len(),
    decreases raw.len() - i,
{
    if i < raw.len() && !stops_tag_name(raw[i]) {
        lemma_tag_name_end_bounds(raw, i + 1);
    }
}

/// The leading identifier of a tag's content, before `(`, `=`, white space or the end.
pub open spec fn tag_name_prefix(raw: Seq<char>) -> Seq<char> {
    raw.subrange(0, tag_name_end(raw, 0))
}

/// The normalized name of a tag: its leading identifier, lowercased.
pub open spec fn tag_name(raw: Seq<char>) -> Seq<char> {
    unicode_lowercase(tag_name_prefix(raw))
}

/// The tokens of a trimmed line `t`, read from index `i`: one tag for each
/// `[...]` in a row, then the rest of the line as text.
pub open spec fn tokens_from(t: Seq<char>, i: int) -> Seq<SpecToken>
    decreases t.len() - i,
{
    if i < 0 || i >= t.len() {
        Seq::empty()
    } else if t[i] == '[' {
        let e = tag_end(t, i + 1, false);
        let raw = t.subrange(i + 1, e);
        let next = if e < t.len() {
            e + 1
        } else {
            e
        };
        proof {
            lemma_tag_end(t, i + 1, false);
        }
        seq![SpecToken::Tag { name: tag_name(raw), raw_inner: raw }] + tokens_from(t, next)
    } else {
        seq![SpecToken::Text(t.subrange(i, t.len() as int))]
    }
}

/// The tokens of a line: none for a blank line, one text for a line that
/// does not start with `[`, else its tags and trailing text. Trailing white
/// space is dropped first.
pub open spec fn spec_tokenize(line: Seq<char>) -> Seq<SpecToken> {
    let t = trim_end(line);
    if t.len() == 0 {
        Seq::empty()
    } else if t[0] != '[' {
        seq![SpecToken::Text(t)]
    } else {
        tokens_from(t, 0)
    }
}

/// The text a token was read from: a tag back in its brackets, or the text.
pub open spec fn token_source(t: SpecToken) -> Seq<char> {
    match t {
        SpecToken::Tag { raw_inner, .. } => seq!['['] + raw_inner + seq![']'],
        SpecToken::Text(x) => x,
    }
}

/// The text a sequence of tokens was read from.
pub open spec fn tokens_source(ts: Seq<SpecToken>) -> Seq<char>
    decreases ts.len(),
{
    if ts.len() == 0 {
        Seq::empty()
    } else {
        token_source(ts[0]) + tokens_source(ts.drop_first())
    }
}

proof fn lemma_tokens_from_lossless(t: Seq<char>, i: int)
    requires
        0 <= i <= t.len(),
    ensures
        tokens_source(tokens_from(t, i)) == t.subrange(i, t.len() as int) || tokens_source(
            tokens_from(t, i),
        ) == t.subrange(i, t.len() as int).push(']'),
        forall|k: int|
            0 <= k < tokens_from(t, i).len() - 1 ==> #[trigger] tokens_from(t, i)[k] is Tag,
    decreases t.len() - i,
{
    let ts = tokens_from(t, i);
    if i < t.len() {
        if t[i] == '[' {
            let e = tag_end(t, i + 1, false);
            lemma_tag_end(t, i + 1, false);
            let next = if e < t.len() {
                e + 1
            } else {
                e
            };
            lemma_tokens_from_lossless(t, next);
            let rest = tokens_from(t, next);
            assert(ts.drop_first() =~= rest);
            let raw = t.subrange(i + 1, e);
            assert(token_source(ts[0]) == seq!['['] + raw + seq![']']);
            if e < t.len() {
                assert(seq!['['] + raw + seq![']'] =~= t.subrange(i, e + 1));
                if tokens_source(rest) == t.subrange(next, t.len() as int) {
                    assert(t.subrange(i, e + 1) + t.subrange(next, t.len() as int) =~= t.subrange(
                        i,
                        t.len() as int,
                    ));
                } else {
                    assert(t.subrange(i, e + 1) + t.subrange(next, t.len() as int).push(']')
                        =~= t.subrange(i, t.len() as int).push(']'));
                }
            } else {
                assert(rest.len() == 0);
                assert(tokens_source(rest) =~= Seq::<char>::empty());
                assert(seq!['['] + raw + seq![']'] + tokens_source(rest) =~= t.subrange(
                    i,
                    t.len() as int,
                ).push(']'));
            }
            assert forall|k: int| 0 <= k < ts.len() - 1 implies #[trigger] ts[k] is Tag by {
                if k > 0 {
                    assert(ts[k] == rest[k - 1]);
                }
            }
        } else {
            assert(ts.drop_first() =~= Seq::<SpecToken>::empty());
            assert(tokens_source(ts.drop_first()) =~= Seq::<char>::empty());
            assert(tokens_source(ts) =~= t.subrange(i, t.len() as int));
        }
    }
}

/// Tokenizing loses nothing: the tokens, each tag written back between its
/// brackets, spell the line without its trailing white space (with a `]`
/// added when the last tag is never closed); and only the last token can be
/// text.
pub proof fn lemma_tokenize_lossless(line: Seq<char>)
    ensures
        tokens_source(spec_tokenize(line)) == trim_end(line) || tokens_source(spec_tokenize(line))
            == trim_end(line).push(']'),
        forall|k: int|
            0 <= k < spec_tokenize(line).len() - 1 ==> #[trigger] spec_tokenize(line)[k] is Tag,
{
    let t = trim_end(line);
    if t.len() == 0 {
        assert(tokens_source(spec_tokenize(line)) =~= t);
    } else if t[0] != '[' {
        let ts = spec_tokenize(line);
        assert(ts.drop_first() =~= Seq::<SpecToken>::empty());
        assert(tokens_source(ts.drop_first()) =~= Seq::<char>::empty());
        assert(tokens_source(ts) =~= t);
    } else {
        lemma_tokens_from_lossless(t, 0);
        assert(t.subrange(0, t.len() as int) =~= t);
    }
}

/// A tag whose leading word is all ASCII has that word, ASCII-lowercased, as its name.
pub open spec fn ascii_name_lowered(t: SpecToken) -> bool {
    match t {
        SpecToken::Tag { name, raw_inner } => all_ascii(tag_name_prefix(raw_inner))
            ==> ascii_lowercase_of(name, tag_name_prefix(raw_inner)),
        SpecToken::Text(_) => true,
    }
}

proof fn lemma_tag_end_plain(t: Seq<char>, j: int, w: Seq<char>, m: int)
    requires
        0 <= j,
        0 <= m <= w.len(),
        j + w.len() <= t.len(),
        t.subrange(j, j + w.len()) == w,
        forall|x: int| 0 <= x < w.len() ==> #[trigger] w[x] != '"' && w[x] != ']',
    ensures
        tag_end(t, j + m, false) == tag_end(t, j + w.len(), false),
    decreases w.len() - m,
{
    if m < w.len() {
        assert(t[j + m] == w[m]);
        lemma_tag_end_plain(t, j, w, m + 1);
    }
}

proof fn lemma_tag_end_quoted(t: Seq<char>, j: int, v: Seq<char>)
    requires
        0 <= j,
        j + escape_quotes(v).len() < t.len(),
        t.subrange(j, j + escape_quotes(v).len()) == escape_quotes(v),
        t[j + escape_quotes(v).len()] == '"',
        forall|x: int| 0 <= x < v.len() ==> #[trigger] v[x] != '\\',
    ensures
        tag_end(t, j, true) == tag_end(t, j + escape_quotes(v).len() + 1, false),
    decreases v.len(),
{
    let e = escape_quotes(v);
    if v.len() > 0 {
        let rest = v.skip(1);
        assert forall|x: int| 0 <= x < rest.len() implies #[trigger] rest[x] != '\\' by {
            assert(rest[x] == v[x + 1]);
        }
        let er = escape_quotes(rest);
        let w: int = if v[0] == '"' { 2 } else { 1 };
        assert(e == (if v[0] == '"' { seq!['\\', '"'] } else { seq![v[0]] }) + er);
        assert(c_sub(t, j + w, er.len() as int) =~= er) by {
            assert forall|x: int| 0 <= x < er.len() implies c_sub(t, j + w, er.len() as int)[x]
                == er[x] by {
                assert(t.subrange(j, j + e.len())[w + x] == e[w + x]);
            }
        }
        assert(t[j] == e[0]);
        if v[0] == '"' {
            assert(t[j + 1] == e[1]);
        }
        lemma_tag_end_quoted(t, j + w, rest);
    }
}

spec fn c_sub(t: Seq<char>, a: int, n: int) -> Seq<char> {
    t.subrange(a, a + n)
}

/// A `]` inside a quoted string does not close a tag: a tag whose content is
/// plain text (no `"` or `]`), a quoted string (each `"` inside written
/// `\"`), then plain text, ends at the `]` after all of it; its content is
/// the lexer's first tag.
pub proof fn lemma_tag_with_quoted_string(
    w1: Seq<char>,
    v: Seq<char>,
    w2: Seq<char>,
    rest: Seq<char>,
)
    requires
        forall|x: int| 0 <= x < w1.len() ==> #[trigger] w1[x] != '"' && w1[x] != ']',
        forall|x: int| 0 <= x < w2.len() ==> #[trigger] w2[x] != '"' && w2[x] != ']',
        forall|x: int| 0 <= x < v.len() ==> #[trigger] v[x] != '\\',
        rest.len() == 0 || !is_white_space(rest.last()),
    ensures
        tag_end(
            seq!['['] + (w1 + seq!['"'] + escape_quotes(v) + seq!['"'] + w2) + seq![']'] + rest,
            1,
            false,
        ) == 1 + (w1 + seq!['"'] + escape_quotes(v) + seq!['"'] + w2).len(),
        spec_tokenize(
            seq!['['] + (w1 + seq!['"'] + escape_quotes(v) + seq!['"'] + w2) + seq![']'] + rest,
        )[0] == (SpecToken::Tag {
            name: tag_name(w1 + seq!['"'] + escape_quotes(v) + seq!['"'] + w2),
            raw_inner: w1 + seq!['"'] + escape_quotes(v) + seq!['"'] + w2,
        }),
{
    let e = escape_quotes(v);
    let raw = w1 + seq!['"'] + e + seq!['"'] + w2;
    let t = seq!['['] + raw + seq![']'] + rest;
    let a: int = 1 + w1.len() as int;
    let b: int = a + 1 + e.len();
    let c: int = b + 1;
    let d: int = c + w2.len();
    assert(t.subrange(1, a) =~= w1);
    assert(t[a] == '"');
    assert(t.subrange(a + 1, a + 1 + e.len()) =~= e);
    assert(t[b] == '"');
    assert(t.subrange(c, c + w2.len()) =~= w2);
    assert(t[d] == ']');
    lemma_tag_end_plain(t, 1, w1, 0);
    lemma_tag_end_quoted(t, a + 1, v);
    lemma_tag_end_plain(t, c, w2, 0);
    assert(d == 1 + raw.len());
    assert(t.subrange(1, d) =~= raw);
    // The line has no trailing white space, so it is its own trimmed form.
    if rest.len() == 0 {
        assert(t.last() == ']');
    } else {
        assert(t.last() == rest.last());
    }
    assert(trim_end(t) == t);
}

/// The end (exclusive) of the tag whose content starts at `start`.
pub(crate) fn scan_tag_end(t: &Vec<char>, start: usize) -> (e: usize)
    requires
        start <= t.len(),
    ensures
        e == tag_end(t@, start as int, false),
{
    let len = t.len();
    let mut i = start;
    let mut in_quote = false;
    while i < len
        invariant
            start <= i <= len,
            len == t.len(),
            tag_end(t@, i as int, in_quote) == tag_end(t@, start as int, false),
        decreases len - i,
    {
        if in_quote {
            if t[i] == '\\' && i + 1 < len && t[i + 1] == '"' {
                i += 2;
                continue;
            }
            if t[i] == '"' {
                in_quote = false;
            }
        } else {
            if t[i] == '"' {
                in_quote = true;
            } else if t[i] == ']' {
                return i;
            }
        }
        i += 1;
    }
    len
}

/// Whether `c` ends a tag's name.
pub(crate) fn is_tag_name_stop(c: char) -> (b: bool)
    ensures
        b == stops_tag_name(c),
{
    c == '(' || c == '=' || char_is_whitespace(c)
}

/// Tokenize a single input line into a sequence of `Token`s.
///
/// - Lines not starting with `[` produce a single `Text` token.
/// - Lines starting with `[` are split into `Tag` and optional trailing `Text`.
/// - Inside a tag, quoted strings (`"..."`) are respected so that `]` inside quotes
///   does not prematurely close the tag.
pub fn tokenize_line(line: &str) -> (tokens: Vec<Token>)
    ensures
        tokens_view(tokens@) == spec_tokenize(line@),
        forall|k: int|
            0 <= k < tokens@.len() ==> ascii_name_lowered(#[trigger] tokens_view(tokens@)[k]),
{
    let chars = chars_of(line);
    let end = trim_end_index(&chars, 0);
    let t = vec_from_range(&chars, 0, end);
    assert(chars@.subrange(0, chars@.len() as int) =~= line@);
    if t.len() == 0 {
        let empty: Vec<Token> = Vec::new();
        assert(tokens_view(empty@) =~= spec_tokenize(line@));
        return empty;
    }
    if t[0] != '[' {
        let mut one: Vec<Token> = Vec::new();
        one.push(Token::Text(string_from_range(&t, 0, t.len())));
        assert(t@.subrange(0, t@.len() as int) =~= t@);
        assert(tokens_view(one@) =~= spec_tokenize(line@));
        return one;
    }
    let len = t.len();
    let mut i: usize = 0;
    let mut tokens: Vec<Token> = Vec::new();
    assert(tokens_view(tokens@) + tokens_from(t@, 0) =~= tokens_from(t@, 0));
    while i < len
        invariant
            0 <= i <= len,
            len == t.len(),
            t@ == trim_end(line@),
            t@.len() > 0,
            t@[0] == '[',
            tokens_view(tokens@) + tokens_from(t@, i as int) == spec_tokenize(line@),
            forall|k: int|
                0 <= k < tokens@.len() ==> ascii_name_lowered(#[trigger] tokens_view(tokens@)[k]),
        decreases len - i,
    {
        let ghost before = tokens_view(tokens@);
        if t[i] == '[' {
            let e = scan_tag_end(&t, i + 1);
            proof {
                lemma_tag_end(t@, i + 1, false);
            }
            let raw = string_from_range(&t, i + 1, e);
            let name = extract_tag_name(raw.as_str());
            let tok = Token::Tag { name, raw_inner: raw };
            tokens.push(tok);
            let next = if e < len {
                e + 1
            } else {
                e
            };
            assert(tokens_view(tokens@) =~= before.push(tok@));
            assert(tokens_from(t@, i as int) == seq![tok@] + tokens_from(t@, next as int));
            assert(tokens_view(tokens@) + tokens_from(t@, next as int) =~= before + tokens_from(
                t@,
                i as int,
            ));
            i = next;
        } else {
            let text = string_from_range(&t, i, len);
            let tok = Token::Text(text);
            tokens.push(tok);
            assert(tokens_view(tokens@) =~= before + tokens_from(t@, i as int));
            return tokens;
        }
    }
    assert(tokens_view(tokens@) + tokens_from(t@, i as int) =~= tokens_view(tokens@));
    tokens
}

/// Extract and lowercase the tag name from the raw inner content.
///
/// The tag name is the leading identifier before `(`, `=`, whitespace, or end of string.
fn extract_tag_name(raw_inner: &str) -> (name: String)
    ensures
        name@ == tag_name(raw_inner@),
        all_ascii(tag_name_prefix(raw_inner@)) ==> ascii_lowercase_of(
            name@,
            tag_name_prefix(raw_inner@),
        ),
{
    let chars = chars_of(raw_inner);
    let mut prefix = String::new();
    let mut i: usize = 0;
    while i < chars.len() && !is_tag_name_stop(chars[i])
        invariant
            i <= chars.len(),
            prefix@ == chars@.subrange(0, i as int),
            tag_name_end(chars@, i as int) == tag_name_end(chars@, 0),
        decreases chars.len() - i,
    {
        push_char(&mut prefix, chars[i]);
        i += 1;
        assert(prefix@ =~= chars@.subrange(0, i as int));
    }
    assert(chars@.subrange(0, i as int) == tag_name_prefix(raw_inner@));
    str_to_lowercase(prefix.as_str())
}


/// The first index at or after `j` that does not hold white space.
pub open spec fn ws_end(c: Seq<char>, j: int) -> int
    decreases c.len() - j,
{
    if j < 0 || j >= c.len() || !is_white_space(c[j]) {
        j
    } else {
        ws_end(c, j + 1)
    }
}

/// Index `i` starts a word: it is the start, or follows `(`, `,` or white space.
pub open spec fn at_word_boundary(c: Seq<char>, i: int) -> bool {
    i == 0 || c[i - 1] == '(' || c[i - 1] == ',' || is_white_space(c[i - 1])
}

/// A quoted value whose characters start at `j`: read up to the closing
/// `"`, or to the end; each `\"` stands for `"`.
pub open spec fn quoted_value(c: Seq<char>, j: int) -> Seq<char>
    decreases c.len() - j,
{
    if j < 0 || j >= c.len() {
        Seq::empty()
    } else if c[j] == '\\' && j + 1 < c.len() && c[j + 1] == '"' {
        seq!['"'] + quoted_value(c, j + 2)
    } else if c[j] == '"' {
        Seq::empty()
    } else {
        seq![c[j]] + quoted_value(c, j + 1)
    }
}

/// A character that ends an unquoted value.
pub open spec fn stops_unquoted(c: char) -> bool {
    c == ',' || c == ')' || is_white_space(c)
}

/// The end of the unquoted value that starts at `j`.
pub open spec fn unquoted_end(c: Seq<char>, j: int) -> int
    decreases c.len() - j,
{
    if j < 0 || j >= c.len() || stops_unquoted(c[j]) {
        j
    } else {
        unquoted_end(c, j + 1)
    }
}

/// The value that starts at `j`: quoted if it opens with `"`, else up to
/// `,`, `)` or white space.
pub open spec fn value_at(c: Seq<char>, j: int) -> Seq<char> {
    if c[j] == '"' {
        quoted_value(c, j + 1)
    } else {
        c.subrange(j, unquoted_end(c, j))
    }
}

/// The value of parameter `k` when its name stands at index `i`: `k` at a
/// word boundary, optional white space, `=`, optional white space, a value.
pub open spec fn param_at(c: Seq<char>, k: Seq<char>, i: int) -> Option<Seq<char>> {
    if 0 <= i && i + k.len() <= c.len() && at_word_boundary(c, i) && c.subrange(i, i + k.len())
        == k {
        let j = ws_end(c, i + k.len());
        if j < c.len() && c[j] == '=' {
            let j2 = ws_end(c, j + 1);
            if j2 < c.len() {
                Some(value_at(c, j2))
            } else {
                None
            }
        } else {
            None
        }
    } else {
        None
    }
}

/// The value of parameter `k` at the first index from `i` where it stands.
pub open spec fn param_from(c: Seq<char>, k: Seq<char>, i: int) -> Option<Seq<char>>
    decreases c.len() + 1 - i,
{
    if i < 0 || i + k.len() > c.len() {
        None
    } else {
        match param_at(c, k, i) {
            Some(v) => Some(v),
            None => param_from(c, k, i + 1),
        }
    }
}

proof fn lemma_name_end_of_word(w: Seq<char>, r: Seq<char>, i: int)
    requires
        0 <= i <= w.len(),
        forall|x: int| 0 <= x < w.len() ==> w[x] != '(' && w[x] != '=' && !is_white_space(#[trigger] w[x]),
        r.len() == 0 || r[0] == '(' || r[0] == '=' || is_white_space(r[0]),
    ensures
        tag_name_end(w + r, i) == w.len(),
    decreases w.len() - i,
{
    let raw = w + r;
    if i < w.len() {
        assert(raw[i] == w[i]);
        lemma_name_end_of_word(w, r, i + 1);
    } else if r.len() > 0 {
        assert(raw[i] == r[0]);
    }
}

/// A tag's name is its whole leading word: the characters before the first
/// `(`, `=` or white space (or all of them). No other character cuts it.
pub proof fn lemma_tag_name_is_leading_word(w: Seq<char>, r: Seq<char>)
    requires
        forall|x: int| 0 <= x < w.len() ==> w[x] != '(' && w[x] != '=' && !is_white_space(#[trigger] w[x]),
        r.len() == 0 || r[0] == '(' || r[0] == '=' || is_white_space(r[0]),
    ensures
        tag_name_prefix(w + r) == w,
        tag_name(w + r) == unicode_lowercase(w),
{
    lemma_name_end_of_word(w, r, 0);
    assert((w + r).subrange(0, w.len() as int) =~= w);
}

proof fn lemma_quoted_plain(c: Seq<char>, j0: int, v: Seq<char>, m: int)
    requires
        0 <= j0,
        j0 + v.len() < c.len(),
        0 <= m <= v.len(),
        c.subrange(j0, j0 + v.len()) == v,
        c[j0 + v.len()] == '"',
        forall|x: int| 0 <= x < v.len() ==> #[trigger] v[x] != '"' && v[x] != '\\',
    ensures
        quoted_value(c, j0 + m) == v.subrange(m, v.len() as int),
    decreases v.len() - m,
{
    if m < v.len() {
        assert(c[j0 + m] == v[m]);
        lemma_quoted_plain(c, j0, v, m + 1);
        assert(seq![v[m]] + v.subrange(m + 1, v.len() as int) =~= v.subrange(m, v.len() as int));
    } else {
        assert(v.subrange(m, v.len() as int) =~= Seq::<char>::empty());
    }
}

/// Where `sep` is `,`, `(` or a space and `k` does not stand earlier at the
/// start of a word, the content `p`, `sep`, `k="v"`, `s` gives parameter `k`
/// the value `v` (for `v` without `"` or `\`).
pub proof fn lemma_param_after_separator(
    p: Seq<char>,
    sep: char,
    k: Seq<char>,
    v: Seq<char>,
    s: Seq<char>,
)
    requires
        sep == ',' || sep == '(' || sep == ' ',
        forall|x: int| 0 <= x < v.len() ==> #[trigger] v[x] != '"' && v[x] != '\\',
        forall|i: int|
            0 <= i <= p.len() && (p + seq![sep] + k).subrange(i, i + k.len()) == k ==> i > 0 && (p
                + seq![sep] + k)[i - 1] != '(' && (p + seq![sep] + k)[i - 1] != ',' && !is_white_space(
                #[trigger] (p + seq![sep] + k)[i - 1],
            ),
    ensures
        param_value(p + seq![sep] + k + seq!['=', '"'] + v + seq!['"'] + s, k) == Some(v),
{
    let c = p + seq![sep] + k + seq!['=', '"'] + v + seq!['"'] + s;
    let pk = p + seq![sep] + k;
    let q: int = p.len() as int + 1;
    let kl = k.len() as int;
    assert(c.subrange(0, pk.len() as int) =~= pk);
    assert(c[q + kl] == '=');
    assert(c[q + kl + 1] == '"');
    assert(c.subrange(q + kl + 2, q + kl + 2 + v.len()) =~= v);
    assert(c[q + kl + 2 + v.len()] == '"');
    lemma_quoted_plain(c, q + kl + 2, v, 0);
    assert(v.subrange(0, v.len() as int) =~= v);
    assert(c.subrange(q, q + kl) =~= k);
    assert(c[q - 1] == sep);
    assert(param_at(c, k, q) == Some(v));
    assert forall|i: int| 0 <= i < q implies param_at(c, k, i) == None::<Seq<char>> by {
        assert(c.subrange(i, i + kl) =~= pk.subrange(i, i + kl));
        if pk.subrange(i, i + kl) == k {
            assert(c[i - 1] == pk[i - 1]);
        }
    }
    lemma_param_from_first(c, k, 0, q);
}

proof fn lemma_param_from_first(c: Seq<char>, k: Seq<char>, i: int, q: int)
    requires
        0 <= i <= q,
        q + k.len() <= c.len(),
        param_at(c, k, q) is Some,
        forall|x: int| i <= x < q ==> #[trigger] param_at(c, k, x) == None::<Seq<char>>,
    ensures
        param_from(c, k, i) == param_at(c, k, q),
    decreases q - i,
{
    if i < q {
        lemma_param_from_first(c, k, i + 1, q);
    }
}

/// Before the separator, key `k` occurs only inside words: never at the
/// start, nor after `(`, `,` or white space.
pub open spec fn key_only_inside_words(p: Seq<char>, sep: char, k: Seq<char>) -> bool {
    forall|i: int|
        0 <= i <= p.len() && (p + seq![sep] + k).subrange(i, i + k.len()) == k ==> i > 0 && (p
            + seq![sep] + k)[i - 1] != '(' && (p + seq![sep] + k)[i - 1] != ',' && !is_white_space(
            #[trigger] (p + seq![sep] + k)[i - 1],
        )
}

/// `v` as written inside a quoted value: each `"` as `\"`.
pub open spec fn escape_quotes(v: Seq<char>) -> Seq<char>
    decreases v.len(),
{
    if v.len() == 0 {
        Seq::empty()
    } else if v[0] == '"' {
        seq!['\\', '"'] + escape_quotes(v.skip(1))
    } else {
        seq![v[0]] + escape_quotes(v.skip(1))
    }
}

/// Every character of `s` is white space.
pub open spec fn all_white_space(s: Seq<char>) -> bool {
    forall|x: int| 0 <= x < s.len() ==> is_white_space(#[trigger] s[x])
}

proof fn lemma_ws_run(c: Seq<char>, a: int, sp: Seq<char>, m: int)
    requires
        0 <= a,
        0 <= m <= sp.len(),
        a + sp.len() < c.len(),
        c.subrange(a, a + sp.len()) == sp,
        all_white_space(sp),
        !is_white_space(c[a + sp.len()]),
    ensures
        ws_end(c, a + m) == a + sp.len(),
    decreases sp.len() - m,
{
    if m < sp.len() {
        assert(c[a + m] == sp[m]);
        lemma_ws_run(c, a, sp, m + 1);
    }
}

/// A quoted value is read back: the characters of `v`, each `"` written
/// `\"`, then a closing `"`, read as the value `v` (for `v` without `\`).
pub proof fn lemma_quoted_escaped(c: Seq<char>, j: int, v: Seq<char>)
    requires
        0 <= j,
        j + escape_quotes(v).len() < c.len(),
        c.subrange(j, j + escape_quotes(v).len()) == escape_quotes(v),
        c[j + escape_quotes(v).len()] == '"',
        forall|x: int| 0 <= x < v.len() ==> #[trigger] v[x] != '\\',
    ensures
        quoted_value(c, j) == v,
    decreases v.len(),
{
    let e = escape_quotes(v);
    if v.len() == 0 {
        assert(v =~= Seq::<char>::empty());
    } else {
        let rest = v.skip(1);
        assert forall|x: int| 0 <= x < rest.len() implies #[trigger] rest[x] != '\\' by {
            assert(rest[x] == v[x + 1]);
        }
        let er = escape_quotes(rest);
        let w: int = if v[0] == '"' { 2 } else { 1 };
        assert(e == (if v[0] == '"' { seq!['\\', '"'] } else { seq![v[0]] }) + er);
        assert(c.subrange(j + w, j + w + er.len()) =~= er) by {
            assert forall|x: int| 0 <= x < er.len() implies c.subrange(j + w, j + w + er.len())[x]
                == er[x] by {
                assert(c.subrange(j, j + e.len())[w + x] == e[w + x]);
            }
        }
        assert(c[j] == e[0]);
        if v[0] == '"' {
            assert(c[j + 1] == e[1]);
        }
        lemma_quoted_escaped(c, j + w, rest);
        assert(seq![v[0]] + rest =~= v);
    }
}

/// The characters from the separator through the `=` and its white space,
/// shared by the parameter laws below.
proof fn lemma_param_at_assignment(
    c: Seq<char>,
    p: Seq<char>,
    sep: char,
    k: Seq<char>,
    sp1: Seq<char>,
    sp2: Seq<char>,
    rest: Seq<char>,
)
    requires
        c == p + seq![sep] + k + sp1 + seq!['='] + sp2 + rest,
        rest.len() > 0,
        !is_white_space(rest[0]),
        sep == ',' || sep == '(' || sep == ' ',
        all_white_space(sp1),
        all_white_space(sp2),
        key_only_inside_words(p, sep, k),
    ensures
        param_value(c, k) == Some(value_at(c, p.len() + 1 + k.len() + sp1.len() + 1 + sp2.len() as int)),
{
    let pk = p + seq![sep] + k;
    let q: int = p.len() as int + 1;
    let kl = k.len() as int;
    let a1 = q + kl;
    let e = a1 + sp1.len();
    let a2 = e + 1;
    let j2 = a2 + sp2.len();
    assert(c.subrange(0, pk.len() as int) =~= pk);
    assert(c.subrange(a1, a1 + sp1.len()) =~= sp1);
    assert(c[e] == '=');
    assert(c.subrange(a2, a2 + sp2.len()) =~= sp2);
    assert(c[j2] == rest[0]);
    lemma_ws_run(c, a1, sp1, 0);
    lemma_ws_run(c, a2, sp2, 0);
    assert(c.subrange(q, q + kl) =~= k);
    assert(c[q - 1] == sep);
    assert(param_at(c, k, q) == Some(value_at(c, j2)));
    assert forall|i: int| 0 <= i < q implies param_at(c, k, i) == None::<Seq<char>> by {
        assert(c.subrange(i, i + kl) =~= pk.subrange(i, i + kl));
        if pk.subrange(i, i + kl) == k {
            assert(c[i - 1] == pk[i - 1]);
        }
    }
    lemma_param_from_first(c, k, 0, q);
}

/// A quoted value is read back: with `sep` a `,`, `(` or space before the
/// key, white space allowed around `=`, each `"` of the value written `\"`,
/// and the key standing at no earlier word start, parameter `k` of
/// `p`, `sep`, `k = "v"`, `s` is `v` (for `v` without `\`).
pub proof fn lemma_param_quoted(
    p: Seq<char>,
    sep: char,
    k: Seq<char>,
    sp1: Seq<char>,
    sp2: Seq<char>,
    v: Seq<char>,
    s: Seq<char>,
)
    requires
        sep == ',' || sep == '(' || sep == ' ',
        all_white_space(sp1),
        all_white_space(sp2),
        forall|x: int| 0 <= x < v.len() ==> #[trigger] v[x] != '\\',
        key_only_inside_words(p, sep, k),
    ensures
        param_value(
            p + seq![sep] + k + sp1 + seq!['='] + sp2 + seq!['"'] + escape_quotes(v) + seq!['"'] + s,
            k,
        ) == Some(v),
{
    let rest = seq!['"'] + escape_quotes(v) + seq!['"'] + s;
    let c = p + seq![sep] + k + sp1 + seq!['='] + sp2 + rest;
    assert(c =~= p + seq![sep] + k + sp1 + seq!['='] + sp2 + seq!['"'] + escape_quotes(v) + seq![
        '"',
    ] + s);
    lemma_param_at_assignment(c, p, sep, k, sp1, sp2, rest);
    let j2: int = p.len() + 1 + k.len() + sp1.len() + 1 + sp2.len() as int;
    let e = escape_quotes(v);
    assert(c[j2] == '"');
    assert(c.subrange(j2 + 1, j2 + 1 + e.len()) =~= e);
    assert(c[j2 + 1 + e.len()] == '"');
    lemma_quoted_escaped(c, j2 + 1, v);
}

proof fn lemma_unquoted_run(c: Seq<char>, j: int, u: Seq<char>, m: int)
    requires
        0 <= j,
        0 <= m <= u.len(),
        j + u.len() <= c.len(),
        c.subrange(j, j + u.len()) == u,
        forall|x: int| 0 <= x < u.len() ==> !stops_unquoted(#[trigger] u[x]),
        j + u.len() == c.len() || stops_unquoted(c[j + u.len()]),
    ensures
        unquoted_end(c, j + m) == j + u.len(),
    decreases u.len() - m,
{
    if m < u.len() {
        assert(c[j + m] == u[m]);
        lemma_unquoted_run(c, j, u, m + 1);
    }
}

/// An unquoted value is read back: parameter `k` of `p`, `sep`, `k = u`, `s`
/// is `u`, for `u` not opening with `"` and holding no `,`, `)` or white
/// space, and `s` empty or starting with one of those.
pub proof fn lemma_param_unquoted(
    p: Seq<char>,
    sep: char,
    k: Seq<char>,
    sp1: Seq<char>,
    sp2: Seq<char>,
    u: Seq<char>,
    s: Seq<char>,
)
    requires
        sep == ',' || sep == '(' || sep == ' ',
        all_white_space(sp1),
        all_white_space(sp2),
        u.len() > 0,
        u[0] != '"',
        forall|x: int| 0 <= x < u.len() ==> #[trigger] u[x] != ',' && u[x] != ')' && !is_white_space(u[x]),
        s.len() == 0 || s[0] == ',' || s[0] == ')' || is_white_space(s[0]),
        key_only_inside_words(p, sep, k),
    ensures
        param_value(p + seq![sep] + k + sp1 + seq!['='] + sp2 + u + s, k) == Some(u),
{
    let rest = u + s;
    let c = p + seq![sep] + k + sp1 + seq!['='] + sp2 + rest;
    assert(c =~= p + seq![sep] + k + sp1 + seq!['='] + sp2 + u + s);
    assert(rest[0] == u[0]);
    lemma_param_at_assignment(c, p, sep, k, sp1, sp2, rest);
    let j2: int = p.len() + 1 + k.len() + sp1.len() + 1 + sp2.len() as int;
    assert(c.subrange(j2, j2 + u.len()) =~= u);
    if s.len() > 0 {
        assert(c[j2 + u.len()] == s[0]);
    }
    lemma_unquoted_run(c, j2, u, 0);
    assert(c[j2] == u[0]);
}

/// The key occurs in `raw` somewhere.
pub open spec fn occurs_in(raw: Seq<char>, key: Seq<char>) -> bool {
    exists|i: int| 0 <= i && i + key.len() <= raw.len() && #[trigger] raw.subrange(i, i + key.len()) == key
}

proof fn lemma_param_from_needs_key(c: Seq<char>, k: Seq<char>, i: int)
    requires
        !occurs_in(c, k),
    ensures
        param_from(c, k, i) == None::<Seq<char>>,
    decreases c.len() + 1 - i,
{
    if !(i < 0 || i + k.len() > c.len()) {
        assert(param_at(c, k, i) == None::<Seq<char>>) by {
            if c.subrange(i, i + k.len()) == k {
                assert(occurs_in(c, k));
            }
        }
        lemma_param_from_needs_key(c, k, i + 1);
    }
}

/// A parameter whose name does not occur in the tag's content has no value.
pub proof fn lemma_param_absent_key(raw: Seq<char>, key: Seq<char>)
    requires
        !occurs_in(raw, key),
    ensures
        param_value(raw, key) == None::<Seq<char>>,
{
    lemma_param_from_needs_key(raw, key, 0);
}

/// The value of parameter `key` in a tag's content, if it is given.
pub open spec fn param_value(raw: Seq<char>, key: Seq<char>) -> Option<Seq<char>> {
    param_from(raw, key, 0)
}

/// The value of an optional string.
pub open spec fn opt_string_view(o: Option<String>) -> Option<Seq<char>> {
    match o {
        Some(s) => Some(s@),
        None => None,
    }
}

/// The value of an optional character vector.
pub open spec fn opt_chars_view(o: Option<Vec<char>>) -> Option<Seq<char>> {
    match o {
        Some(s) => Some(s@),
        None => None,
    }
}

/// The first index at or after `j` that does not hold white space.
fn skip_ws(c: &Vec<char>, j: usize) -> (r: usize)
    requires
        j <= c.len(),
    ensures
        r == ws_end(c@, j as int),
        j <= r <= c.len(),
{
    let mut i = j;
    while i < c.len() && char_is_whitespace(c[i])
        invariant
            j <= i <= c.len(),
            ws_end(c@, i as int) == ws_end(c@, j as int),
        decreases c.len() - i,
    {
        i += 1;
    }
    i
}

/// Whether `c[i..i + k.len()]` equals `k`.
fn matches_at(c: &Vec<char>, k: &Vec<char>, i: usize) -> (b: bool)
    requires
        i + k.len() <= c.len(),
    ensures
        b == (c@.subrange(i as int, i + k.len()) == k@),
{
    let mut m: usize = 0;
    while m < k.len()
        invariant
            m <= k.len(),
            i + k.len() <= c.len(),
            forall|x: int| 0 <= x < m ==> c@[i + x] == k@[x],
        decreases k.len() - m,
    {
        if c[i + m] != k[m] {
            assert(c@.subrange(i as int, i + k.len())[m as int] != k@[m as int]);
            return false;
        }
        m += 1;
    }
    assert(c@.subrange(i as int, i + k.len()) =~= k@);
    true
}

/// The quoted value whose characters start at `j`.
fn read_quoted(c: &Vec<char>, j: usize) -> (v: Vec<char>)
    requires
        j <= c.len(),
    ensures
        v@ == quoted_value(c@, j as int),
{
    let len = c.len();
    let mut value: Vec<char> = Vec::new();
    let mut i = j;
    while i < len
        invariant
            j <= i <= len,
            len == c.len(),
            value@ + quoted_value(c@, i as int) == quoted_value(c@, j as int),
        decreases len - i,
    {
        let ghost before = value@;
        if c[i] == '\\' && i + 1 < len && c[i + 1] == '"' {
            value.push('"');
            assert(value@ + quoted_value(c@, i + 2) =~= before + quoted_value(c@, i as int));
            i += 2;
            continue;
        }
        if c[i] == '"' {
            assert(value@ =~= value@ + quoted_value(c@, i as int));
            return value;
        }
        value.push(c[i]);
        assert(value@ + quoted_value(c@, i + 1) =~= before + quoted_value(c@, i as int));
        i += 1;
    }
    assert(value@ =~= value@ + quoted_value(c@, i as int));
    value
}

/// The end of the unquoted value that starts at `j`.
fn scan_unquoted_end(c: &Vec<char>, j: usize) -> (r: usize)
    requires
        j <= c.len(),
    ensures
        r == unquoted_end(c@, j as int),
        j <= r <= c.len(),
{
    let mut i = j;
    while i < c.len() && c[i] != ',' && c[i] != ')' && !char_is_whitespace(c[i])
        invariant
            j <= i <= c.len(),
            unquoted_end(c@, i as int) == unquoted_end(c@, j as int),
        decreases c.len() - i,
    {
        i += 1;
    }
    i
}

/// The value of parameter `k` when its name stands at index `i`.
fn param_at_index(c: &Vec<char>, k: &Vec<char>, i: usize) -> (r: Option<Vec<char>>)
    requires
        i + k.len() <= c.len(),
    ensures
        opt_chars_view(r) == param_at(c@, k@, i as int),
{
    let len = c.len();
    let at_boundary = i == 0 || c[i - 1] == '(' || c[i - 1] == ',' || char_is_whitespace(c[i - 1]);
    if !at_boundary || !matches_at(c, k, i) {
        return None;
    }
    let j = skip_ws(c, i + k.len());
    if j < len && c[j] == '=' {
        let j2 = skip_ws(c, j + 1);
        if j2 < len {
            if c[j2] == '"' {
                Some(read_quoted(c, j2 + 1))
            } else {
                let e = scan_unquoted_end(c, j2);
                Some(vec_from_range(c, j2, e))
            }
        } else {
            None
        }
    } else {
        None
    }
}

/// The value of parameter `k` in the tag content `c`, if it is given.
pub(crate) fn find_param(c: &Vec<char>, k: &Vec<char>) -> (r: Option<Vec<char>>)
    ensures
        opt_chars_view(r) == param_value(c@, k@),
{
    let len = c.len();
    let klen = k.len();
    if klen > len {
        return None;
    }
    let mut i: usize = 0;
    while i <= len - klen
        invariant
            klen == k.len(),
            len == c.len(),
            klen <= len,
            param_from(c@, k@, i as int) == param_from(c@, k@, 0),
        decreases len - klen - i,
    {
        match param_at_index(c, k, i) {
            Some(v) => {
                return Some(v);
            },
            None => {},
        }
        if i == len - klen {
            assert(param_from(c@, k@, i + 1) == None::<Seq<char>>);
            return None;
        }
        i += 1;
    }
    None
}

/// Extract a named parameter's value from a tag's raw inner content.
///
/// Handles both quoted values (`key="value"`, `key = "value"`) and
/// unquoted values (`key=123`, `key = true`).
///
/// Returns `None` if the key is not found.
pub fn extract_param(raw_inner: &str, key: &str) -> (r: Option<String>)
    ensures
        opt_string_view(r) == param_value(raw_inner@, key@),
{
    let c = chars_of(raw_inner);
    let k = chars_of(key);
    match find_param(&c, &k) {
        Some(v) => Some(string_from_range(&v, 0, v.len())),
        None => None,
    }
}


/// The tag's name is `key`, ignoring ASCII case.
pub open spec fn name_matches(raw: Seq<char>, key: Seq<char>) -> bool {
    ascii_eq_ignore_case(tag_name_prefix(raw), key)
}

/// Whether the name of the tag with content `raw` is `key`, ignoring ASCII case.
pub(crate) fn tag_name_eq(raw: &Vec<char>, key: &Vec<char>) -> (b: bool)
    ensures
        b == name_matches(raw@, key@),
{
    let mut e: usize = 0;
    while e < raw.len() && !is_tag_name_stop(raw[e])
        invariant
            e <= raw.len(),
            tag_name_end(raw@, e as int) == tag_name_end(raw@, 0),
        decreases raw.len() - e,
    {
        e += 1;
    }
    let prefix = vec_from_range(raw, 0, e);
    eq_ignore_ascii_case(&prefix, key)
}

} // verus!
