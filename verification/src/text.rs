//! Character-level helpers shared by the lexer, parser and renderer.

use vstd::prelude::*;

verus! {

broadcast use vstd::string::group_string_axioms;

/// The Unicode `White_Space` property (PropList.txt).
pub open spec fn is_white_space(c: char) -> bool {
    let u = c as u32;
    ||| 0x9 <= u <= 0xD
    ||| u == 0x20
    ||| u == 0x85
    ||| u == 0xA0
    ||| u == 0x1680
    ||| 0x2000 <= u <= 0x200A
    ||| u == 0x2028
    ||| u == 0x2029
    ||| u == 0x202F
    ||| u == 0x205F
    ||| u == 0x3000
}

/// Whether `c` is white space (as `char::is_whitespace` decides: the
/// Unicode `White_Space` property).
pub fn char_is_whitespace(c: char) -> (b: bool)
    ensures
        b == is_white_space(c),
{
    let u = c as u32;
    (0x9 <= u && u <= 0xD) || u == 0x20 || u == 0x85 || u == 0xA0 || u == 0x1680 || (0x2000 <= u
        && u <= 0x200A) || u == 0x2028 || u == 0x2029 || u == 0x202F || u == 0x205F || u == 0x3000
}

/// Calls `String::push`, which appends one character.
#[verifier::external_body]
pub(crate) fn push_char(s: &mut String, c: char)
    ensures
        final(s)@ == old(s)@.push(c),
{
    s.push(c)
}

/// The code of `c` after ASCII lowercasing: `A`..`Z` map to `a`..`z`,
/// every other character keeps its code.
pub open spec fn ascii_lower_code(c: char) -> u32 {
    let u = c as u32;
    if 0x41 <= u <= 0x5A {
        (u + 0x20) as u32
    } else {
        u
    }
}

/// Every character of `s` is ASCII.
pub open spec fn all_ascii(s: Seq<char>) -> bool {
    forall|i: int| 0 <= i < s.len() ==> (#[trigger] s[i] as u32) < 0x80
}

/// `r` is `s` with its ASCII letters lowercased.
pub open spec fn ascii_lowercase_of(r: Seq<char>, s: Seq<char>) -> bool {
    &&& r.len() == s.len()
    &&& forall|i: int| 0 <= i < s.len() ==> (#[trigger] r[i] as u32) == ascii_lower_code(s[i])
}

/// What `str::to_lowercase` returns for a string with these characters
/// (the Unicode lowercase mapping, applied to the whole string).
pub uninterp spec fn unicode_lowercase(s: Seq<char>) -> Seq<char>;

/// Calls `str::to_lowercase`. Its result is named `unicode_lowercase` of the
/// argument's characters; on an all-ASCII argument it is the ASCII lowercase
/// of each character, which is the only part of the Unicode mapping stated.
#[verifier::external_body]
pub(crate) fn str_to_lowercase(s: &str) -> (r: String)
    ensures
        r@ == unicode_lowercase(s@),
        all_ascii(s@) ==> ascii_lowercase_of(r@, s@),
{
    s.to_lowercase()
}

/// Whether two characters are equal once ASCII letters are lowercased.
pub fn eq_ignore_ascii_case_char(a: char, b: char) -> (r: bool)
    ensures
        r == (ascii_lower_code(a) == ascii_lower_code(b)),
{
    let ua = a as u32;
    let ub = b as u32;
    let la = if 0x41 <= ua && ua <= 0x5A {
        ua + 0x20
    } else {
        ua
    };
    let lb = if 0x41 <= ub && ub <= 0x5A {
        ub + 0x20
    } else {
        ub
    };
    la == lb
}

/// Two character sequences are equal once ASCII letters are lowercased.
pub open spec fn ascii_eq_ignore_case(a: Seq<char>, b: Seq<char>) -> bool {
    &&& a.len() == b.len()
    &&& forall|i: int| 0 <= i < a.len() ==> ascii_lower_code(#[trigger] a[i]) == ascii_lower_code(b[i])
}

/// Whether `a` and `b` are equal once ASCII letters are lowercased.
pub fn eq_ignore_ascii_case(a: &Vec<char>, b: &Vec<char>) -> (r: bool)
    ensures
        r == ascii_eq_ignore_case(a@, b@),
{
    if a.len() != b.len() {
        return false;
    }
    let mut i: usize = 0;
    while i < a.len()
        invariant
            i <= a.len(),
            a.len() == b.len(),
            forall|x: int| 0 <= x < i ==> ascii_lower_code(#[trigger] a@[x]) == ascii_lower_code(b@[x]),
        decreases a.len() - i,
    {
        if !eq_ignore_ascii_case_char(a[i], b[i]) {
            return false;
        }
        i += 1;
    }
    true
}

/// Whether `a` and `b` hold the same characters.
pub fn chars_eq(a: &Vec<char>, b: &Vec<char>) -> (r: bool)
    ensures
        r == (a@ == b@),
{
    if a.len() != b.len() {
        return false;
    }
    let mut i: usize = 0;
    while i < a.len()
        invariant
            i <= a.len(),
            a.len() == b.len(),
            forall|x: int| 0 <= x < i ==> a@[x] == b@[x],
        decreases a.len() - i,
    {
        if a[i] != b[i] {
            return false;
        }
        i += 1;
    }
    assert(a@ =~= b@);
    true
}

/// Appends the characters of `b` to `a`.
pub fn append_chars(a: &mut Vec<char>, b: &Vec<char>)
    ensures
        final(a)@ == old(a)@ + b@,
{
    let mut i: usize = 0;
    while i < b.len()
        invariant
            i <= b.len(),
            a@ == old(a)@ + b@.take(i as int),
        decreases b.len() - i,
    {
        a.push(b[i]);
        i += 1;
        assert(a@ =~= old(a)@ + b@.take(i as int));
    }
    assert(b@.take(i as int) =~= b@);
}

/// Appends the characters of `v` to `s`.
pub fn push_chars(s: &mut String, v: &Vec<char>)
    ensures
        final(s)@ == old(s)@ + v@,
{
    let mut i: usize = 0;
    while i < v.len()
        invariant
            i <= v.len(),
            s@ == old(s)@ + v@.take(i as int),
        decreases v.len() - i,
    {
        push_char(s, v[i]);
        i += 1;
        assert(s@ =~= old(s)@ + v@.take(i as int));
    }
    assert(v@.take(i as int) =~= v@);
}

/// Whether `c` occurs in `v`.
pub fn contains_char(v: &Vec<char>, c: char) -> (r: bool)
    ensures
        r == v@.contains(c),
{
    let mut i: usize = 0;
    while i < v.len()
        invariant
            i <= v.len(),
            forall|x: int| 0 <= x < i ==> v@[x] != c,
        decreases v.len() - i,
    {
        if v[i] == c {
            return true;
        }
        i += 1;
    }
    false
}

/// The characters of a string slice, in order.
pub fn chars_of(s: &str) -> (v: Vec<char>)
    ensures
        v@ == s@,
{
    let mut v: Vec<char> = Vec::new();
    for c in it: s.chars()
        invariant
            v@ == it.seq().take(it.index()),
    {
        v.push(c);
    }
    v
}


/// The characters of `v[start..end]` as a `String`.
pub fn string_from_range(v: &Vec<char>, start: usize, end: usize) -> (s: String)
    requires
        start <= end <= v.len(),
    ensures
        s@ == v@.subrange(start as int, end as int),
{
    let mut s = String::new();
    let mut i = start;
    while i < end
        invariant
            start <= i <= end,
            end <= v.len(),
            s@ == v@.subrange(start as int, i as int),
        decreases end - i,
    {
        push_char(&mut s, v[i]);
        i += 1;
        assert(s@ =~= v@.subrange(start as int, i as int));
    }
    s
}

/// The characters of `v` as a `String`.
pub fn string_of(v: &Vec<char>) -> (s: String)
    ensures
        s@ == v@,
{
    let s = string_from_range(v, 0, v.len());
    assert(v@.subrange(0, v@.len() as int) =~= v@);
    s
}

/// The characters of `v[start..end]` as a vector.
pub fn vec_from_range(v: &Vec<char>, start: usize, end: usize) -> (r: Vec<char>)
    requires
        start <= end <= v.len(),
    ensures
        r@ == v@.subrange(start as int, end as int),
{
    let mut r: Vec<char> = Vec::new();
    let mut i = start;
    while i < end
        invariant
            start <= i <= end,
            end <= v.len(),
            r@ == v@.subrange(start as int, i as int),
        decreases end - i,
    {
        r.push(v[i]);
        i += 1;
        assert(r@ =~= v@.subrange(start as int, i as int));
    }
    r
}

/// `s` with trailing white space removed (as `str::trim_end` does).
pub open spec fn trim_end(s: Seq<char>) -> Seq<char>
    decreases s.len(),
{
    if s.len() > 0 && is_white_space(s.last()) {
        trim_end(s.drop_last())
    } else {
        s
    }
}

/// Trimming keeps a prefix, and leaves no white space at the end.
pub proof fn lemma_trim_end(s: Seq<char>)
    ensures
        trim_end(s).len() <= s.len(),
        trim_end(s) == s.subrange(0, trim_end(s).len() as int),
        trim_end(s).len() > 0 ==> !is_white_space(trim_end(s).last()),
    decreases s.len(),
{
    if s.len() > 0 && is_white_space(s.last()) {
        lemma_trim_end(s.drop_last());
        let n = trim_end(s).len() as int;
        assert(s.drop_last().subrange(0, n) =~= s.subrange(0, n));
    } else {
        assert(s.subrange(0, s.len() as int) =~= s);
    }
}

/// The end of `v[start..]` once trailing white space is trimmed.
pub fn trim_end_index(v: &Vec<char>, start: usize) -> (e: usize)
    requires
        start <= v.len(),
    ensures
        start <= e <= v.len(),
        v@.subrange(start as int, e as int) == trim_end(v@.subrange(start as int, v.len() as int)),
{
    let mut e = v.len();
    while e > start && char_is_whitespace(v[e - 1])
        invariant
            start <= e <= v.len(),
            trim_end(v@.subrange(start as int, e as int)) == trim_end(
                v@.subrange(start as int, v.len() as int),
            ),
        decreases e,
    {
        assert(v@.subrange(start as int, e as int).drop_last() =~= v@.subrange(
            start as int,
            e - 1,
        ));
        e -= 1;
    }
    e
}

/// A line with its final carriage return removed, if it has one.
pub open spec fn strip_cr(l: Seq<char>) -> Seq<char> {
    if l.len() > 0 && l.last() == '\r' {
        l.drop_last()
    } else {
        l
    }
}

/// One step of line splitting: the finished lines and the line being read.
pub open spec fn lines_step(st: (Seq<Seq<char>>, Seq<char>), c: char) -> (Seq<Seq<char>>, Seq<char>) {
    if c == '\n' {
        (st.0.push(strip_cr(st.1)), Seq::empty())
    } else {
        (st.0, st.1.push(c))
    }
}

/// Line splitting state after reading all of `s`.
pub open spec fn lines_fold(s: Seq<char>) -> (Seq<Seq<char>>, Seq<char>)
    decreases s.len(),
{
    if s.len() == 0 {
        (Seq::empty(), Seq::empty())
    } else {
        lines_step(lines_fold(s.drop_last()), s.last())
    }
}

/// The lines of `s`, as `str::lines` yields them: split at `\n`, a `\r`
/// before that `\n` dropped, and no empty line after a final `\n`.
pub open spec fn lines(s: Seq<char>) -> Seq<Seq<char>> {
    let st = lines_fold(s);
    if st.1.len() > 0 {
        st.0.push(st.1)
    } else {
        st.0
    }
}

/// The views of a sequence of character vectors.
pub open spec fn char_vecs_view(s: Seq<Vec<char>>) -> Seq<Seq<char>> {
    s.map_values(|l: Vec<char>| l@)
}

proof fn lemma_lines_fold_no_newline(s: Seq<char>)
    ensures
        forall|k: int| 0 <= k < lines_fold(s).0.len() ==> !(#[trigger] lines_fold(s).0[k]).contains('\n'),
        !lines_fold(s).1.contains('\n'),
    decreases s.len(),
{
    if s.len() > 0 {
        lemma_lines_fold_no_newline(s.drop_last());
        let st = lines_fold(s.drop_last());
        let st2 = lines_fold(s);
        if s.last() == '\n' {
            assert(!strip_cr(st.1).contains('\n')) by {
                if strip_cr(st.1).contains('\n') {
                    let i = choose|i: int| 0 <= i < strip_cr(st.1).len() && strip_cr(st.1)[i] == '\n';
                    assert(st.1[i] == '\n');
                }
            }
            assert forall|k: int| 0 <= k < st2.0.len() implies !(#[trigger] st2.0[k]).contains('\n') by {
                if k < st.0.len() {
                    assert(st2.0[k] == st.0[k]);
                }
            }
            assert(st2.1 =~= Seq::<char>::empty());
        } else {
            assert(st2.0 == st.0);
            assert forall|i: int| 0 <= i < st2.1.len() implies st2.1[i] != '\n' by {
                if i < st.1.len() {
                    assert(st2.1[i] == st.1[i]);
                }
            }
        }
    }
}

/// No line holds a newline.
pub proof fn lemma_lines_no_newline(s: Seq<char>)
    ensures
        forall|k: int| 0 <= k < lines(s).len() ==> !(#[trigger] lines(s)[k]).contains('\n'),
{
    lemma_lines_fold_no_newline(s);
}

proof fn lemma_lines_fold_concat(s: Seq<char>, b: Seq<char>)
    requires
        lines_fold(s).1.len() == 0,
    ensures
        lines_fold(s + b).0 == lines_fold(s).0 + lines_fold(b).0,
        lines_fold(s + b).1 == lines_fold(b).1,
    decreases b.len(),
{
    if b.len() == 0 {
        assert(s + b =~= s);
        assert(lines_fold(s).0 + lines_fold(b).0 =~= lines_fold(s).0);
    } else {
        assert((s + b).drop_last() =~= s + b.drop_last());
        assert((s + b).last() == b.last());
        lemma_lines_fold_concat(s, b.drop_last());
        let p = lines_fold(b.drop_last());
        if b.last() == '\n' {
            assert(lines_fold(s).0 + p.0.push(strip_cr(p.1)) =~= (lines_fold(s).0 + p.0).push(
                strip_cr(p.1),
            ));
        }
    }
}

/// Two texts joined by a newline have the lines of the first, then those of
/// the second; when the first ends with a newline (or is empty) an empty
/// line stands between them. The first must not end with `\r`, which the
/// joining newline would take as part of a line ending.
pub proof fn lemma_lines_join(a: Seq<char>, b: Seq<char>)
    requires
        a.len() == 0 || a.last() != '\r',
    ensures
        lines(a + seq!['\n'] + b) == (if lines_fold(a).1.len() > 0 {
            lines(a)
        } else {
            lines(a).push(Seq::<char>::empty())
        }) + lines(b),
{
    let s = a + seq!['\n'];
    assert(s.drop_last() =~= a);
    let cur = lines_fold(a).1;
    if cur.len() > 0 {
        assert(a.len() > 0);
        assert(a.drop_last().push(a.last()) =~= a);
        assert(cur.last() == a.last());
        assert(strip_cr(cur) == cur);
    }
    lemma_lines_fold_concat(s, b);
    assert(s + b =~= a + seq!['\n'] + b);
    let f = lines_fold(s + b);
    if lines_fold(b).1.len() > 0 {
        assert(f.0.push(f.1) =~= lines_fold(s).0 + lines(b));
    } else {
        assert(f.0 =~= lines_fold(s).0 + lines(b));
    }
}

proof fn lemma_lines_fold_single(t: Seq<char>)
    requires
        !t.contains('\n'),
    ensures
        lines_fold(t) == (Seq::<Seq<char>>::empty(), t),
    decreases t.len(),
{
    if t.len() > 0 {
        assert(!t.drop_last().contains('\n')) by {
            if t.drop_last().contains('\n') {
                let i = choose|i: int| 0 <= i < t.drop_last().len() && t.drop_last()[i] == '\n';
                assert(t[i] == '\n');
            }
        }
        lemma_lines_fold_single(t.drop_last());
        assert(t[t.len() - 1] != '\n');
        assert(t.drop_last().push(t.last()) =~= t);
    }
}

/// Text without a newline is a single line (or none, when empty).
pub proof fn lemma_lines_single(t: Seq<char>)
    requires
        !t.contains('\n'),
    ensures
        lines(t) == if t.len() > 0 {
            seq![t]
        } else {
            Seq::<Seq<char>>::empty()
        },
{
    lemma_lines_fold_single(t);
    if t.len() > 0 {
        assert(Seq::<Seq<char>>::empty().push(t) =~= seq![t]);
    }
}

/// A line ended by `\r\n` loses both: the `\r` is part of the line ending.
pub proof fn lemma_lines_crlf(x: Seq<char>)
    requires
        !x.contains('\n'),
    ensures
        lines(x + seq!['\r', '\n']) == seq![x],
{
    let xr = x.push('\r');
    assert(!xr.contains('\n')) by {
        if xr.contains('\n') {
            let i = choose|i: int| 0 <= i < xr.len() && xr[i] == '\n';
            if i < x.len() {
                assert(x[i] == '\n');
            }
        }
    }
    lemma_lines_fold_single(xr);
    let s = x + seq!['\r', '\n'];
    assert(s.drop_last() =~= xr);
    assert(strip_cr(xr) =~= x);
    assert(lines_fold(s).0 =~= seq![x]);
}

/// The lines of `v`.
pub fn split_lines(v: &Vec<char>) -> (out: Vec<Vec<char>>)
    ensures
        char_vecs_view(out@) == lines(v@),
{
    let mut out: Vec<Vec<char>> = Vec::new();
    let mut cur: Vec<char> = Vec::new();
    let mut i: usize = 0;
    while i < v.len()
        invariant
            i <= v.len(),
            (char_vecs_view(out@), cur@) == lines_fold(v@.take(i as int)),
        decreases v.len() - i,
    {
        let c = v[i];
        assert(v@.take(i + 1).drop_last() =~= v@.take(i as int));
        if c == '\n' {
            if cur.len() > 0 && cur[cur.len() - 1] == '\r' {
                cur.pop();
            }
            let done = cur;
            out.push(done);
            cur = Vec::new();
            assert(char_vecs_view(out@) =~= lines_fold(v@.take(i + 1)).0);
        } else {
            cur.push(c);
        }
        i += 1;
    }
    assert(v@.take(i as int) =~= v@);
    if cur.len() > 0 {
        out.push(cur);
        assert(char_vecs_view(out@) =~= lines(v@));
    }
    out
}

} // verus!
