//! Compiling the scripts of a story, in reading order, into one text.

use vstd::prelude::*;

use crate::parser::{parse, spec_parse};
use crate::renderer::{join_blocks, lemma_join_blocks_concat, render, spec_render};
use crate::text::{chars_of, push_char, push_chars};

verus! {

/// The text of a story: each script parsed and rendered, a blank line
/// between the texts of consecutive scripts.
pub open spec fn spec_compile(scripts: Seq<Seq<char>>) -> Seq<char> {
    join_blocks(scripts.map_values(|s: Seq<char>| spec_render(spec_parse(s))))
}

/// The values of a sequence of strings.
pub open spec fn strings_view(ss: Seq<String>) -> Seq<Seq<char>> {
    ss.map_values(|s: String| s@)
}

/// A story of one script is that script's rendered text, and the text of
/// two non-empty runs of scripts is theirs with a blank line between.
pub proof fn lemma_compile_concat(a: Seq<Seq<char>>, b: Seq<Seq<char>>)
    ensures
        a.len() == 1 ==> spec_compile(a) == spec_render(spec_parse(a[0])),
        a.len() > 0 && b.len() > 0 ==> spec_compile(a + b) == spec_compile(a) + seq!['\n', '\n']
            + spec_compile(b),
{
    let f = |s: Seq<char>| spec_render(spec_parse(s));
    if a.len() > 0 && b.len() > 0 {
        assert((a + b).map_values(f) =~= a.map_values(f) + b.map_values(f));
        lemma_join_blocks_concat(a.map_values(f), b.map_values(f));
    }
}

/// Parses and renders each script, in the order given, and joins the texts
/// with a blank line between each two.
pub fn compile_story(scripts: &Vec<String>) -> (out: String)
    ensures
        out@ == spec_compile(strings_view(scripts@)),
{
    let ghost blocks = strings_view(scripts@).map_values(|s: Seq<char>| spec_render(spec_parse(s)));
    let mut out = String::new();
    let mut i: usize = 0;
    assert(blocks.take(0) =~= Seq::<Seq<char>>::empty());
    while i < scripts.len()
        invariant
            i <= scripts.len(),
            blocks == strings_view(scripts@).map_values(|s: Seq<char>| spec_render(spec_parse(s))),
            out@ == join_blocks(blocks.take(i as int)),
        decreases scripts.len() - i,
    {
        let ghost before = out@;
        let events = parse(scripts[i].as_str());
        let text = render(events.as_slice());
        if i > 0 {
            push_char(&mut out, '\n');
            push_char(&mut out, '\n');
        }
        push_chars(&mut out, &chars_of(text.as_str()));
        assert(blocks.take(i + 1).drop_last() =~= blocks.take(i as int));
        assert(blocks.take(i + 1).last() == text@);
        if i > 0 {
            assert(out@ =~= before + seq!['\n', '\n'] + text@);
        } else {
            assert(out@ =~= text@);
        }
        i += 1;
    }
    assert(blocks.take(i as int) =~= blocks);
    out
}

} // verus!
