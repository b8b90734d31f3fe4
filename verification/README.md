# ark-story-plaintext

Compiles Arknights story scripts into readable plain text, with the logic
verified by Verus.

- `src/text.rs`: character helpers (white space, trimming, line splitting).
- `src/lexer.rs`: splitting a script line into tags and text; reading tag parameters.
- `src/parser.rs`: turning a script into narration, dialogue, subtitle and sticker events.
- `src/renderer.rs`: rendering events as paragraphs and blockquotes.
- `src/story.rs`: compiling several scripts, in reading order, into one text.
- `app/main.rs`: reads `inputs/*.txt` in file-name order and writes `outputs/story.txt`.

Files in `inputs/` are prefixed with `[index].` to set the reading order
(e.g. `01. level_xxx.txt`); files with `_st\d\d.txt` suffixes are interludes
and are placed where they belong in the sequence.
