//! Rendering events as plain text with blockquotes.

use vstd::prelude::*;

use crate::parser::{Event, SpecEvent, events_view};
use crate::text::{
    char_vecs_view, chars_of, lemma_lines_no_newline, lemma_lines_single, lines, push_char, push_chars, split_lines,
};

verus! {

/// The blocks joined with a blank line (`\n\n`) between each two.
pub open spec fn join_blocks(blocks: Seq<Seq<char>>) -> Seq<char>
    decreases blocks.len(),
{
    if blocks.len() == 0 {
        Seq::empty()
    } else if blocks.len() == 1 {
        blocks[0]
    } else {
        join_blocks(blocks.drop_last()) + seq!['\n', '\n'] + blocks.last()
    }
}

/// Lines as a blockquote: each line behind `> `, one per row.
pub open spec fn quote_lines(ls: Seq<Seq<char>>) -> Seq<char>
    decreases ls.len(),
{
    if ls.len() == 0 {
        Seq::empty()
    } else if ls.len() == 1 {
        seq!['>', ' '] + ls[0]
    } else {
        quote_lines(ls.drop_last()) + seq!['\n', '>', ' '] + ls.last()
    }
}

/// One event as text: narration as it is, with a `\` before a leading `>`;
/// dialogue as speaker, full-width colon, text; subtitles and stickers as
/// blockquotes.
pub open spec fn render_event(e: SpecEvent) -> Seq<char> {
    match e {
        SpecEvent::Narration(t) => if t.len() > 0 && t[0] == '>' {
            seq!['\\'] + t
        } else {
            t
        },
        SpecEvent::Dialogue { speaker, text } => speaker + seq!['\u{FF1A}'] + text,
        SpecEvent::Subtitle(t) => quote_lines(lines(t)),
        SpecEvent::Sticker(t) => quote_lines(lines(t)),
    }
}

/// The events as text, one paragraph each, a blank line between paragraphs.
pub open spec fn spec_render(es: Seq<SpecEvent>) -> Seq<char> {
    join_blocks(es.map_values(|e: SpecEvent| render_event(e)))
}

/// Joining two non-empty runs of blocks puts a blank line between their texts.
pub proof fn lemma_join_blocks_concat(a: Seq<Seq<char>>, b: Seq<Seq<char>>)
    requires
        a.len() > 0,
        b.len() > 0,
    ensures
        join_blocks(a + b) == join_blocks(a) + seq!['\n', '\n'] + join_blocks(b),
    decreases b.len(),
{
    if b.len() == 1 {
        assert((a + b).drop_last() =~= a);
    } else {
        assert((a + b).drop_last() =~= a + b.drop_last());
        lemma_join_blocks_concat(a, b.drop_last());
        assert(join_blocks(a + b) =~= join_blocks(a) + seq!['\n', '\n'] + join_blocks(b));
    }
}

/// Rendering two non-empty runs of events gives their texts with a blank
/// line between them.
pub proof fn lemma_render_concat(a: Seq<SpecEvent>, b: Seq<SpecEvent>)
    requires
        a.len() > 0,
        b.len() > 0,
    ensures
        spec_render(a + b) == spec_render(a) + seq!['\n', '\n'] + spec_render(b),
{
    let f = |e: SpecEvent| render_event(e);
    assert((a + b).map_values(f) =~= a.map_values(f) + b.map_values(f));
    lemma_join_blocks_concat(a.map_values(f), b.map_values(f));
}

/// A dialogue paragraph is its speaker, a full-width colon, then its whole
/// text, alone or after other paragraphs.
pub proof fn lemma_dialogue_paragraph(es: Seq<SpecEvent>, speaker: Seq<char>, text: Seq<char>)
    ensures
        spec_render(seq![SpecEvent::Dialogue { speaker, text }]) == speaker + seq!['\u{FF1A}']
            + text,
        es.len() > 0 ==> spec_render(es.push(SpecEvent::Dialogue { speaker, text })) == spec_render(
            es,
        ) + seq!['\n', '\n'] + speaker + seq!['\u{FF1A}'] + text,
{
    let e = SpecEvent::Dialogue { speaker, text };
    let f = |x: SpecEvent| render_event(x);
    assert(seq![e].map_values(f) =~= seq![render_event(e)]);
    if es.len() > 0 {
        assert(es.push(e) =~= es + seq![e]);
        lemma_render_concat(es, seq![e]);
    }
}

/// A narration paragraph is its text, with a `\` put before it only when it
/// starts with `>`.
pub proof fn lemma_narration_paragraph(t: Seq<char>)
    ensures
        t.len() > 0 && t[0] == '>' ==> spec_render(seq![SpecEvent::Narration(t)]) == seq!['\\'] + t,
        !(t.len() > 0 && t[0] == '>') ==> spec_render(seq![SpecEvent::Narration(t)]) == t,
{
    let f = |x: SpecEvent| render_event(x);
    assert(seq![SpecEvent::Narration(t)].map_values(f) =~= seq![render_event(SpecEvent::Narration(t))]);
}

/// A one-line subtitle or sticker is `> ` then its text; an empty one renders as nothing.
pub proof fn lemma_quote_single_line(t: Seq<char>)
    requires
        !t.contains('\n'),
    ensures
        t.len() > 0 ==> spec_render(seq![SpecEvent::Subtitle(t)]) == seq!['>', ' '] + t,
        t.len() > 0 ==> spec_render(seq![SpecEvent::Sticker(t)]) == seq!['>', ' '] + t,
        t.len() == 0 ==> spec_render(seq![SpecEvent::Subtitle(t)]) == Seq::<char>::empty(),
        t.len() == 0 ==> spec_render(seq![SpecEvent::Sticker(t)]) == Seq::<char>::empty(),
{
    lemma_lines_single(t);
    let f = |x: SpecEvent| render_event(x);
    assert(seq![SpecEvent::Subtitle(t)].map_values(f) =~= seq![render_event(SpecEvent::Subtitle(t))]);
    assert(seq![SpecEvent::Sticker(t)].map_values(f) =~= seq![render_event(SpecEvent::Sticker(t))]);
}

/// A narration paragraph never opens like a blockquote: it cannot start with `>`.
pub proof fn lemma_narration_not_quote(t: Seq<char>)
    ensures
        render_event(SpecEvent::Narration(t)).len() == 0 || render_event(SpecEvent::Narration(t))[0]
            != '>',
{
}

/// Every row of the text starts with `> `: so does the text, and so does
/// what follows each newline.
pub open spec fn quoted_rows(q: Seq<char>) -> bool {
    &&& q.len() > 0 ==> q.len() >= 2 && q[0] == '>' && q[1] == ' '
    &&& forall|i: int| 0 <= i < q.len() && #[trigger] q[i] == '\n' ==> i + 2 < q.len() && q[i + 1] == '>' && q[i + 2] == ' '
}

proof fn lemma_quote_lines_rows(ls: Seq<Seq<char>>)
    requires
        forall|k: int| 0 <= k < ls.len() ==> !(#[trigger] ls[k]).contains('\n'),
    ensures
        quoted_rows(quote_lines(ls)),
    decreases ls.len(),
{
    let q = quote_lines(ls);
    if ls.len() == 1 {
        assert forall|i: int| 0 <= i < q.len() && #[trigger] q[i] == '\n' implies false by {
            assert(ls[0][i - 2] == '\n');
        }
    } else if ls.len() > 1 {
        let ls0 = ls.drop_last();
        assert forall|k: int| 0 <= k < ls0.len() implies !(#[trigger] ls0[k]).contains('\n') by {
            assert(ls0[k] == ls[k]);
        }
        lemma_quote_lines_rows(ls0);
        let q0 = quote_lines(ls0);
        let last = ls.last();
        assert(!ls[ls.len() - 1].contains('\n'));
        assert(q == q0 + seq!['\n', '>', ' '] + last);
        assert forall|i: int| 0 <= i < q.len() && #[trigger] q[i] == '\n' implies i + 2 < q.len()
            && q[i + 1] == '>' && q[i + 2] == ' ' by {
            if i < q0.len() {
                assert(q0[i] == '\n');
                assert(q[i + 1] == q0[i + 1] && q[i + 2] == q0[i + 2]);
            } else if i > q0.len() + 2 {
                assert(last[i - q0.len() - 3] == '\n');
            }
        }
        if q0.len() > 0 {
            assert(q[0] == q0[0] && q[1] == q0[1]);
        }
    }
}

/// Subtitles and stickers are blockquotes: every row of their text starts with `> `.
pub proof fn lemma_quote_rows(t: Seq<char>)
    ensures
        quoted_rows(render_event(SpecEvent::Subtitle(t))),
        quoted_rows(render_event(SpecEvent::Sticker(t))),
{
    lemma_lines_no_newline(t);
    lemma_quote_lines_rows(lines(t));
}

/// Appends `text` as a blockquote.
fn push_quoted(out: &mut String, text: &String)
    ensures
        final(out)@ == old(out)@ + quote_lines(lines(text@)),
{
    let chars = chars_of(text.as_str());
    let ls = split_lines(&chars);
    let ghost lv = char_vecs_view(ls@);
    let mut j: usize = 0;
    assert(lv.take(0) =~= Seq::<Seq<char>>::empty());
    assert(out@ =~= old(out)@ + quote_lines(lv.take(0)));
    while j < ls.len()
        invariant
            j <= ls.len(),
            lv == char_vecs_view(ls@),
            lv == lines(text@),
            out@ == old(out)@ + quote_lines(lv.take(j as int)),
        decreases ls.len() - j,
    {
        let ghost before = out@;
        if j > 0 {
            push_char(out, '\n');
        }
        push_char(out, '>');
        push_char(out, ' ');
        push_chars(out, &ls[j]);
        assert(lv.take(j + 1).drop_last() =~= lv.take(j as int));
        assert(lv.take(j + 1).last() == ls@[j as int]@);
        if j > 0 {
            assert(out@ =~= before + seq!['\n', '>', ' '] + ls@[j as int]@);
        } else {
            assert(out@ =~= before + seq!['>', ' '] + ls@[j as int]@);
        }
        j += 1;
    }
    assert(lv.take(j as int) =~= lv);
}

/// Appends the text of one event.
fn push_event(out: &mut String, event: &Event)
    ensures
        final(out)@ == old(out)@ + render_event(event@),
{
    match event {
        Event::Narration(text) => {
            let chars = chars_of(text.as_str());
            if chars.len() > 0 && chars[0] == '>' {
                push_char(out, '\\');
            }
            push_chars(out, &chars);
            assert(out@ =~= old(out)@ + render_event(event@));
        },
        Event::Dialogue { speaker, text } => {
            push_chars(out, &chars_of(speaker.as_str()));
            push_char(out, '\u{FF1A}');
            push_chars(out, &chars_of(text.as_str()));
            assert(out@ =~= old(out)@ + render_event(event@));
        },
        Event::Subtitle(text) => {
            push_quoted(out, text);
        },
        Event::Sticker(text) => {
            push_quoted(out, text);
        },
    }
}

/// Render a sequence of events into the final Markdown output.
///
/// Output uses only two Markdown features:
/// - Double line breaks (`\n\n`) between paragraphs.
/// - Blockquote (`> `) for subtitles and stickers.
pub fn render(events: &[Event]) -> (out: String)
    ensures
        out@ == spec_render(events_view(events@)),
{
    let ghost blocks = events_view(events@).map_values(|e: SpecEvent| render_event(e));
    let mut out = String::new();
    let mut i: usize = 0;
    assert(blocks.take(0) =~= Seq::<Seq<char>>::empty());
    while i < events.len()
        invariant
            i <= events.len(),
            blocks == events_view(events@).map_values(|e: SpecEvent| render_event(e)),
            out@ == join_blocks(blocks.take(i as int)),
        decreases events.len() - i,
    {
        let ghost before = out@;
        if i > 0 {
            push_char(&mut out, '\n');
            push_char(&mut out, '\n');
        }
        push_event(&mut out, &events[i]);
        assert(blocks.take(i + 1).drop_last() =~= blocks.take(i as int));
        assert(blocks.take(i + 1).last() == render_event(events@[i as int]@));
        if i > 0 {
            assert(out@ =~= before + seq!['\n', '\n'] + render_event(events@[i as int]@));
        } else {
            assert(out@ =~= render_event(events@[i as int]@));
        }
        i += 1;
    }
    assert(blocks.take(i as int) =~= blocks);
    out
}

} // verus!
