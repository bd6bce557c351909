//! Character-level text helpers. A string is modelled by its `Seq<char>`.

use vstd::prelude::*;

verus! {

/// Whether `c` has the Unicode `White_Space` property.
pub open spec fn is_white_space(c: char) -> bool {
    ||| ('\u{9}' <= c && c <= '\u{d}')
    ||| c == ' '
    ||| c == '\u{85}'
    ||| c == '\u{a0}'
    ||| c == '\u{1680}'
    ||| ('\u{2000}' <= c && c <= '\u{200a}')
    ||| c == '\u{2028}'
    ||| c == '\u{2029}'
    ||| c == '\u{202f}'
    ||| c == '\u{205f}'
    ||| c == '\u{3000}'
}

/// The lowercase mapping of a string, as `str::to_lowercase` computes it
/// (Unicode lowercase mapping, which may change the length of the text).
pub uninterp spec fn lowercase(s: Seq<char>) -> Seq<char>;

/// Whether `c` is white space: it has the Unicode `White_Space` property
/// (what `char::is_whitespace` answers).
pub fn char_is_whitespace(c: char) -> (r: bool)
    ensures
        r == is_white_space(c),
{
    ('\u{9}' <= c && c <= '\u{d}') || c == ' ' || c == '\u{85}' || c == '\u{a0}' || c == '\u{1680}'
        || ('\u{2000}' <= c && c <= '\u{200a}') || c == '\u{2028}' || c == '\u{2029}' || c == '\u{202f}'
        || c == '\u{205f}' || c == '\u{3000}'
}

/// `str::to_lowercase`: the result is named `lowercase` of the input; its
/// Unicode case tables are not restated here.
#[verifier::external_body]
pub(crate) fn to_lowercase(s: &str) -> (r: String)
    ensures
        r@ == lowercase(s@),
{
    s.to_lowercase()
}

/// `String::push`: appends one character to the end of the string.
#[verifier::external_body]
pub(crate) fn push_char(s: &mut String, c: char)
    ensures
        final(s)@ == old(s)@.push(c),
{
    s.push(c)
}

/// The views of a sequence of strings.
pub open spec fn views(v: Seq<String>) -> Seq<Seq<char>> {
    v.map_values(|s: String| s@)
}

// ---------------------------------------------------------------------------
// Splitting at white space

/// The run of non-white-space characters at the end of `s`.
pub open spec fn trailing_word(s: Seq<char>) -> Seq<char>
    decreases s.len(),
{
    if s.len() == 0 {
        seq![]
    } else if is_white_space(s.last()) {
        seq![]
    } else {
        trailing_word(s.drop_last()).push(s.last())
    }
}

/// The words of `s` that a white-space character has already closed.
pub open spec fn closed_words(s: Seq<char>) -> Seq<Seq<char>>
    decreases s.len(),
{
    if s.len() == 0 {
        seq![]
    } else if is_white_space(s.last()) && trailing_word(s.drop_last()).len() > 0 {
        closed_words(s.drop_last()).push(trailing_word(s.drop_last()))
    } else {
        closed_words(s.drop_last())
    }
}

/// The words of `s`: its maximal non-empty runs of non-white-space
/// characters, in order (what `str::split_whitespace` yields).
pub open spec fn words_of(s: Seq<char>) -> Seq<Seq<char>> {
    if trailing_word(s).len() > 0 {
        closed_words(s).push(trailing_word(s))
    } else {
        closed_words(s)
    }
}

/// `w` is a non-empty run of non-white-space characters.
pub open spec fn is_word(w: Seq<char>) -> bool {
    w.len() > 0 && forall|i: int| 0 <= i < w.len() ==> !is_white_space(#[trigger] w[i])
}

/// Lemma: the trailing run holds no white space.
proof fn lemma_trailing_word_no_space(s: Seq<char>)
    ensures
        forall|i: int| 0 <= i < trailing_word(s).len() ==> !is_white_space(#[trigger] trailing_word(s)[i]),
    decreases s.len(),
{
    if s.len() > 0 {
        lemma_trailing_word_no_space(s.drop_last());
        if !is_white_space(s.last()) {
            let t = trailing_word(s.drop_last());
            assert forall|i: int| 0 <= i < trailing_word(s).len() implies !is_white_space(
                #[trigger] trailing_word(s)[i],
            ) by {
                if i < t.len() {
                    assert(trailing_word(s)[i] == t[i]);
                }
            }
        }
    }
}

/// Law: every word of a text is a non-empty run of non-white-space
/// characters.
pub proof fn law_words_are_words(s: Seq<char>)
    ensures
        forall|i: int| 0 <= i < words_of(s).len() ==> is_word(#[trigger] words_of(s)[i]),
    decreases s.len(),
{
    lemma_closed_words_are_words(s);
    lemma_trailing_word_no_space(s);
}

/// Lemma: every closed word is a word.
proof fn lemma_closed_words_are_words(s: Seq<char>)
    ensures
        forall|i: int| 0 <= i < closed_words(s).len() ==> is_word(#[trigger] closed_words(s)[i]),
    decreases s.len(),
{
    if s.len() > 0 {
        lemma_closed_words_are_words(s.drop_last());
        lemma_trailing_word_no_space(s.drop_last());
        let c = closed_words(s.drop_last());
        let t = trailing_word(s.drop_last());
        if is_white_space(s.last()) && t.len() > 0 {
            assert forall|i: int| 0 <= i < closed_words(s).len() implies is_word(
                #[trigger] closed_words(s)[i],
            ) by {
                if i < c.len() {
                    assert(closed_words(s)[i] == c[i]);
                } else {
                    assert(closed_words(s)[i] == t);
                }
            }
        }
    }
}

/// Lemma: appending characters that are not white space extends the
/// trailing run and closes no word.
proof fn lemma_append_word(s: Seq<char>, w: Seq<char>)
    requires
        forall|i: int| 0 <= i < w.len() ==> !is_white_space(#[trigger] w[i]),
    ensures
        trailing_word(s + w) == trailing_word(s) + w,
        closed_words(s + w) == closed_words(s),
    decreases w.len(),
{
    if w.len() == 0 {
        assert(s + w == s);
        assert(trailing_word(s) + w == trailing_word(s));
    } else {
        let w1 = w.drop_last();
        lemma_append_word(s, w1);
        assert((s + w).drop_last() == s + w1);
        assert((s + w).last() == w[w.len() - 1]);
        assert(trailing_word(s) + w == (trailing_word(s) + w1).push(w.last()));
    }
}

/// Law: joining words with single spaces and splitting the result at white
/// space gives back the same words.
pub proof fn law_split_join(ws: Seq<Seq<char>>)
    requires
        forall|i: int| 0 <= i < ws.len() ==> is_word(#[trigger] ws[i]),
    ensures
        words_of(join_spaced(ws)) == ws,
{
    lemma_split_join(ws);
    if ws.len() > 0 {
        assert(closed_words(join_spaced(ws)).push(trailing_word(join_spaced(ws))) == ws);
    }
}

/// Lemma: after joining, the last word is the trailing run and the others
/// are closed.
proof fn lemma_split_join(ws: Seq<Seq<char>>)
    requires
        forall|i: int| 0 <= i < ws.len() ==> is_word(#[trigger] ws[i]),
    ensures
        ws.len() == 0 ==> join_spaced(ws) == Seq::<char>::empty(),
        ws.len() > 0 ==> trailing_word(join_spaced(ws)) == ws.last(),
        ws.len() > 0 ==> closed_words(join_spaced(ws)) == ws.drop_last(),
    decreases ws.len(),
{
    if ws.len() == 1 {
        assert(is_word(ws[0]));
        lemma_append_word(Seq::<char>::empty(), ws[0]);
        assert(Seq::<char>::empty() + ws[0] == ws[0]);
        assert(ws.drop_last() == Seq::<Seq<char>>::empty());
    } else if ws.len() > 1 {
        let dl = ws.drop_last();
        assert forall|i: int| 0 <= i < dl.len() implies is_word(#[trigger] dl[i]) by {
            assert(dl[i] == ws[i]);
        }
        lemma_split_join(dl);
        let head = join_spaced(dl) + seq![' '];
        assert(head == join_spaced(dl).push(' '));
        assert(head.drop_last() == join_spaced(dl));
        assert(is_word(dl.last()));
        assert(trailing_word(head) == Seq::<char>::empty());
        assert(closed_words(head) == dl.drop_last().push(dl.last()));
        assert(dl.drop_last().push(dl.last()) == dl);
        assert(is_word(ws.last()));
        lemma_append_word(head, ws.last());
        assert(Seq::<char>::empty() + ws.last() == ws.last());
    }
}

/// `g` holds only white space.
pub open spec fn all_white_space(g: Seq<char>) -> bool {
    forall|i: int| 0 <= i < g.len() ==> is_white_space(#[trigger] g[i])
}

/// Lemma: after a white-space character, the closed words are the words
/// before it followed by the closed words after it, and the trailing run is
/// that of the text after it.
proof fn lemma_words_after_space(s: Seq<char>, c: char, t: Seq<char>)
    requires
        is_white_space(c),
    ensures
        closed_words(s.push(c) + t) == words_of(s) + closed_words(t),
        trailing_word(s.push(c) + t) == trailing_word(t),
    decreases t.len(),
{
    if t.len() == 0 {
        assert(s.push(c) + t == s.push(c));
        assert(s.push(c).drop_last() == s);
        assert(words_of(s) + closed_words(t) == words_of(s));
    } else {
        let t1 = t.drop_last();
        lemma_words_after_space(s, c, t1);
        let u = s.push(c) + t;
        assert(u.drop_last() == s.push(c) + t1);
        assert(u.last() == t.last());
        if is_white_space(t.last()) && trailing_word(t1).len() > 0 {
            assert(words_of(s) + closed_words(t1).push(trailing_word(t1)) == (words_of(s) + closed_words(
                t1,
            )).push(trailing_word(t1)));
        }
    }
}

/// Law: a white-space character separates words: the words of a text
/// with a white-space character in it are the words before that character
/// followed by the words after it. Together with `law_words_of_word` and
/// `law_words_of_white_space`, this fixes the words of every text.
pub proof fn law_words_split_at_space(s: Seq<char>, c: char, t: Seq<char>)
    requires
        is_white_space(c),
    ensures
        words_of(s.push(c) + t) == words_of(s) + words_of(t),
{
    lemma_words_after_space(s, c, t);
    if trailing_word(t).len() > 0 {
        assert(words_of(s) + closed_words(t).push(trailing_word(t)) == (words_of(s) + closed_words(t)).push(
            trailing_word(t),
        ));
    }
}

/// Law: a non-empty run of non-white-space characters is one word, itself.
pub proof fn law_words_of_word(w: Seq<char>)
    requires
        is_word(w),
    ensures
        words_of(w) == seq![w],
{
    lemma_append_word(Seq::<char>::empty(), w);
    assert(Seq::<char>::empty() + w == w);
    assert(trailing_word(Seq::<char>::empty()) + w == w);
    assert(closed_words(Seq::<char>::empty()) == Seq::<Seq<char>>::empty());
}

/// Law: a text of white space alone has no words.
pub proof fn law_words_of_white_space(g: Seq<char>)
    requires
        all_white_space(g),
    ensures
        words_of(g) == Seq::<Seq<char>>::empty(),
    decreases g.len(),
{
    if g.len() > 0 {
        let g1 = g.drop_last();
        assert(all_white_space(g1)) by {
            assert forall|i: int| 0 <= i < g1.len() implies is_white_space(#[trigger] g1[i]) by {
                assert(g1[i] == g[i]);
            }
        }
        law_words_of_white_space(g1);
        assert(is_white_space(g[g.len() - 1]));
        assert(trailing_word(g1).len() == 0) by {
            if trailing_word(g1).len() > 0 {
                assert(words_of(g1).len() > 0);
            }
        }
    }
}

/// Words joined by a single space each.
pub open spec fn join_spaced(ws: Seq<Seq<char>>) -> Seq<char>
    decreases ws.len(),
{
    if ws.len() == 0 {
        seq![]
    } else if ws.len() == 1 {
        ws[0]
    } else {
        join_spaced(ws.drop_last()) + seq![' '] + ws.last()
    }
}

/// Law: joining two non-empty lists of words one after the other puts a
/// single space between their joined texts.
pub proof fn law_join_spaced_concat(a: Seq<Seq<char>>, b: Seq<Seq<char>>)
    requires
        a.len() > 0,
        b.len() > 0,
    ensures
        join_spaced(a + b) == join_spaced(a) + seq![' '] + join_spaced(b),
    decreases b.len(),
{
    let ab = a + b;
    assert(ab.last() == b.last());
    if b.len() == 1 {
        assert(ab.drop_last() == a);
        assert(join_spaced(b) == b[0]);
    } else {
        let b1 = b.drop_last();
        law_join_spaced_concat(a, b1);
        assert(ab.drop_last() == a + b1);
        assert(join_spaced(ab) =~= join_spaced(a) + seq![' '] + join_spaced(b));
    }
}

/// Law: the words of one word joined alone are that word.
pub proof fn law_join_spaced_single(w: Seq<char>)
    ensures
        join_spaced(seq![w]) == w,
{
}

/// The words of `s`, each an owned string.
pub fn split_words(s: &str) -> (r: Vec<String>)
    ensures
        views(r@) == words_of(s@),
{
    let ghost text = s@;
    let mut r: Vec<String> = Vec::new();
    let mut cur = String::new();
    let mut i: usize = 0;
    let chars = chars_of(s);
    let n = chars.len();
    while i < n
        invariant
            chars@ == text,
            n == text.len(),
            i <= n,
            cur@ == trailing_word(text.take(i as int)),
            views(r@) == closed_words(text.take(i as int)),
        decreases n - i,
    {
        let c = chars[i];
        assert(text.take(i + 1).drop_last() == text.take(i as int));
        if char_is_whitespace(c) {
            if !cur.as_str().is_empty() {
                let word = cur;
                r.push(word);
                cur = String::new();
            }
        } else {
            push_char(&mut cur, c);
        }
        i = i + 1;
        assert(views(r@) == closed_words(text.take(i as int)));
    }
    assert(text.take(n as int) == text);
    if !cur.as_str().is_empty() {
        r.push(cur);
    }
    r
}


/// The characters `chars[lo..hi]` as an owned string.
pub fn string_from_range(chars: &Vec<char>, lo: usize, hi: usize) -> (r: String)
    requires
        lo <= hi <= chars.len(),
    ensures
        r@ == chars@.subrange(lo as int, hi as int),
{
    let mut r = String::new();
    let mut i = lo;
    while i < hi
        invariant
            lo <= i <= hi <= chars.len(),
            r@ == chars@.subrange(lo as int, i as int),
        decreases hi - i,
    {
        push_char(&mut r, chars[i]);
        i = i + 1;
        assert(r@ == chars@.subrange(lo as int, i as int));
    }
    r
}

// ---------------------------------------------------------------------------
// Lines

/// `l` without one trailing carriage return, if it has one.
pub open spec fn strip_cr(l: Seq<char>) -> Seq<char> {
    if l.len() > 0 && l.last() == '\r' {
        l.drop_last()
    } else {
        l
    }
}

/// The characters of `s` after its last line feed.
pub open spec fn trailing_line(s: Seq<char>) -> Seq<char>
    decreases s.len(),
{
    if s.len() == 0 {
        seq![]
    } else if s.last() == '\n' {
        seq![]
    } else {
        trailing_line(s.drop_last()).push(s.last())
    }
}

/// The lines of `s` that a line feed has ended, each without its line
/// ending (`\n` or `\r\n`).
pub open spec fn closed_lines(s: Seq<char>) -> Seq<Seq<char>>
    decreases s.len(),
{
    if s.len() == 0 {
        seq![]
    } else if s.last() == '\n' {
        closed_lines(s.drop_last()).push(strip_cr(trailing_line(s.drop_last())))
    } else {
        closed_lines(s.drop_last())
    }
}

/// The lines of `s` as `str::lines` yields them: split at `\n` or `\r\n`,
/// the final line ending optional, a final empty line not yielded.
pub open spec fn lines_of(s: Seq<char>) -> Seq<Seq<char>> {
    if trailing_line(s).len() > 0 {
        closed_lines(s).push(trailing_line(s))
    } else {
        closed_lines(s)
    }
}

/// Lemma: a text without a line feed is one unfinished line.
proof fn lemma_no_line_feed(a: Seq<char>)
    requires
        !a.contains('\n'),
    ensures
        trailing_line(a) == a,
        closed_lines(a) == Seq::<Seq<char>>::empty(),
    decreases a.len(),
{
    if a.len() > 0 {
        let a1 = a.drop_last();
        assert(!a1.contains('\n')) by {
            if a1.contains('\n') {
                let k = choose|k: int| 0 <= k < a1.len() && a1[k] == '\n';
                assert(a[k] == '\n');
            }
        }
        lemma_no_line_feed(a1);
        assert(a.last() != '\n') by {
            if a.last() == '\n' {
                assert(a[a.len() - 1] == '\n');
            }
        }
        assert(a1.push(a.last()) == a);
    }
}

/// Lemma: after a line feed, the ended lines are those before it, the line
/// it ends, and the ended lines after it; the unfinished line is that of
/// the text after it.
proof fn lemma_lines_after_line_feed(x: Seq<char>, t: Seq<char>)
    ensures
        closed_lines(x.push('\n') + t) == closed_lines(x).push(strip_cr(trailing_line(x))) + closed_lines(t),
        trailing_line(x.push('\n') + t) == trailing_line(t),
    decreases t.len(),
{
    if t.len() == 0 {
        assert(x.push('\n') + t == x.push('\n'));
        assert(x.push('\n').drop_last() == x);
        assert(closed_lines(x).push(strip_cr(trailing_line(x))) + closed_lines(t) == closed_lines(x).push(
            strip_cr(trailing_line(x)),
        ));
    } else {
        let t1 = t.drop_last();
        lemma_lines_after_line_feed(x, t1);
        let u = x.push('\n') + t;
        assert(u.drop_last() == x.push('\n') + t1);
        assert(u.last() == t.last());
        let h = closed_lines(x).push(strip_cr(trailing_line(x)));
        if t.last() == '\n' {
            assert(h + closed_lines(t1).push(strip_cr(trailing_line(t1))) == (h + closed_lines(t1)).push(
                strip_cr(trailing_line(t1)),
            ));
        }
    }
}

/// Law: a text without a line feed is a single line, or no line where it
/// is empty.
pub proof fn law_lines_without_line_feed(a: Seq<char>)
    requires
        !a.contains('\n'),
    ensures
        lines_of(a) == (if a.len() == 0 {
            Seq::<Seq<char>>::empty()
        } else {
            seq![a]
        }),
{
    lemma_no_line_feed(a);
}

/// Law: a line feed ends the line before it: the lines of `a`, a line
/// feed, then `t` (with no line feed in `a`) are `a`, without a final
/// carriage return, followed by the lines of `t`. With
/// `law_lines_without_line_feed` this fixes the lines of every text.
pub proof fn law_lines_split_at_line_feed(a: Seq<char>, t: Seq<char>)
    requires
        !a.contains('\n'),
    ensures
        lines_of(a.push('\n') + t) == seq![strip_cr(a)] + lines_of(t),
{
    lemma_no_line_feed(a);
    lemma_lines_after_line_feed(a, t);
    assert(closed_lines(a).push(strip_cr(trailing_line(a))) == seq![strip_cr(a)]);
    if trailing_line(t).len() > 0 {
        assert(seq![strip_cr(a)] + closed_lines(t).push(trailing_line(t)) == (seq![strip_cr(a)] + closed_lines(
            t,
        )).push(trailing_line(t)));
    }
}

/// The lines of `s`, each an owned string.
pub fn split_lines(s: &str) -> (r: Vec<String>)
    ensures
        views(r@) == lines_of(s@),
{
    let ghost text = s@;
    let chars = chars_of(s);
    let n = chars.len();
    let mut r: Vec<String> = Vec::new();
    let mut start: usize = 0;
    let mut i: usize = 0;
    while i < n
        invariant
            chars@ == text,
            n == text.len(),
            start <= i <= n,
            chars@.subrange(start as int, i as int) == trailing_line(text.take(i as int)),
            views(r@) == closed_lines(text.take(i as int)),
        decreases n - i,
    {
        assert(text.take(i + 1).drop_last() == text.take(i as int));
        if chars[i] == '\n' {
            let ghost before = r@;
            let mut end = i;
            if end > start && chars[end - 1] == '\r' {
                end = end - 1;
                assert(chars@.subrange(start as int, i as int).drop_last() == chars@.subrange(
                    start as int,
                    end as int,
                ));
            }
            let line = string_from_range(&chars, start, end);
            assert(line@ == strip_cr(trailing_line(text.take(i as int))));
            r.push(line);
            assert(views(r@) == views(before).push(line@));
            start = i + 1;
        } else {
            assert(chars@.subrange(start as int, i + 1) == chars@.subrange(
                start as int,
                i as int,
            ).push(chars@[i as int]));
        }
        i = i + 1;
        assert(views(r@) == closed_lines(text.take(i as int)));
        assert(chars@.subrange(start as int, i as int) == trailing_line(text.take(i as int)));
    }
    assert(text.take(n as int) == text);
    if start < n {
        let line = string_from_range(&chars, start, n);
        r.push(line);
    }
    r
}

// ---------------------------------------------------------------------------
// Trimming

/// `s` without its leading white space.
pub open spec fn trim_start(s: Seq<char>) -> Seq<char>
    decreases s.len(),
{
    if s.len() > 0 && is_white_space(s[0]) {
        trim_start(s.drop_first())
    } else {
        s
    }
}

/// `s` without its trailing white space.
pub open spec fn trim_end(s: Seq<char>) -> Seq<char>
    decreases s.len(),
{
    if s.len() > 0 && is_white_space(s.last()) {
        trim_end(s.drop_last())
    } else {
        s
    }
}

/// `s` without leading and trailing white space (`str::trim`).
pub open spec fn trimmed(s: Seq<char>) -> Seq<char> {
    trim_end(trim_start(s))
}

/// Lemma: trimming the start drops a prefix of white space, leaving a text
/// that is empty or starts with another character; the length of that
/// prefix is returned.
proof fn lemma_trim_start(s: Seq<char>) -> (a: int)
    ensures
        0 <= a <= s.len(),
        trim_start(s) == s.skip(a),
        all_white_space(s.take(a)),
        trim_start(s).len() > 0 ==> !is_white_space(trim_start(s)[0]),
    decreases s.len(),
{
    if s.len() > 0 && is_white_space(s[0]) {
        let s1 = s.drop_first();
        let a1 = lemma_trim_start(s1);
        assert(s1.skip(a1) == s.skip(a1 + 1));
        assert forall|i: int| 0 <= i < a1 + 1 implies is_white_space(#[trigger] s.take(a1 + 1)[i]) by {
            if i > 0 {
                assert(s.take(a1 + 1)[i] == s1.take(a1)[i - 1]);
            }
        }
        a1 + 1
    } else {
        assert(s.skip(0) == s);
        0
    }
}

/// Lemma: trimming the end drops a suffix of white space, leaving a text
/// that is empty or ends with another character; the length of what is
/// left is returned.
proof fn lemma_trim_end(s: Seq<char>) -> (b: int)
    ensures
        0 <= b <= s.len(),
        trim_end(s) == s.take(b),
        all_white_space(s.skip(b)),
        trim_end(s).len() > 0 ==> !is_white_space(trim_end(s).last()),
    decreases s.len(),
{
    if s.len() > 0 && is_white_space(s.last()) {
        let s1 = s.drop_last();
        let b1 = lemma_trim_end(s1);
        assert(s1.take(b1) == s.take(b1));
        assert forall|i: int| 0 <= i < s.len() - b1 implies is_white_space(#[trigger] s.skip(b1)[i]) by {
            if i < s1.len() - b1 {
                assert(s.skip(b1)[i] == s1.skip(b1)[i]);
            } else {
                assert(s.skip(b1)[i] == s.last());
            }
        }
        b1
    } else {
        assert(s.take(s.len() as int) == s);
        s.len() as int
    }
}

/// Law: trimming takes off exactly the white space at both ends: the text
/// is white space, then the trimmed text, then white space, and the trimmed
/// text neither starts nor ends with white space.
pub proof fn law_trimmed(s: Seq<char>)
    ensures
        exists|a: int, b: int|
            {
                &&& 0 <= a <= b <= s.len()
                &&& #[trigger] s.subrange(a, b) == trimmed(s)
                &&& all_white_space(s.subrange(0, a))
                &&& all_white_space(s.subrange(b, s.len() as int))
            },
        trimmed(s).len() > 0 ==> !is_white_space(trimmed(s)[0]) && !is_white_space(trimmed(s).last()),
{
    let a = lemma_trim_start(s);
    let x = s.skip(a);
    let b = lemma_trim_end(x);
    assert(x.take(b) == s.subrange(a, a + b));
    assert(s.take(a) == s.subrange(0, a));
    assert(x.skip(b) == s.subrange(a + b, s.len() as int));
    if trimmed(s).len() > 0 {
        assert(trimmed(s)[0] == x[0]);
        assert(trim_start(s)[0] == x[0]);
    }
    assert(s.subrange(a, a + b) == trimmed(s));
}

/// `s` without leading and trailing white space.
pub fn trim(s: &str) -> (r: String)
    ensures
        r@ == trimmed(s@),
{
    let ghost text = s@;
    let chars = chars_of(s);
    let n = chars.len();
    let mut lo: usize = 0;
    assert(text.skip(0) == text);
    while lo < n && char_is_whitespace(chars[lo])
        invariant
            chars@ == text,
            n == text.len(),
            lo <= n,
            trim_start(text) == trim_start(text.skip(lo as int)),
        decreases n - lo,
    {
        assert(text.skip(lo as int).drop_first() == text.skip(lo + 1));
        lo = lo + 1;
    }
    let ghost front = text.skip(lo as int);
    assert(trim_start(front) == front);
    let mut hi: usize = n;
    assert(front == text.subrange(lo as int, hi as int));
    while hi > lo && char_is_whitespace(chars[hi - 1])
        invariant
            chars@ == text,
            n == text.len(),
            lo <= hi <= n,
            trim_end(front) == trim_end(text.subrange(lo as int, hi as int)),
        decreases hi,
    {
        assert(text.subrange(lo as int, hi as int).drop_last() == text.subrange(lo as int, hi - 1));
        hi = hi - 1;
    }
    string_from_range(&chars, lo, hi)
}

// ---------------------------------------------------------------------------
// Splitting at a sentence end

/// The pieces of `s` between occurrences of the two characters `.\n`
/// (what `str::split(".\n")` yields; empty pieces included).
pub open spec fn sentence_pieces(s: Seq<char>) -> Seq<Seq<char>>
    decreases s.len(),
{
    if s.len() == 0 {
        seq![seq![]]
    } else if s.len() >= 2 && s[s.len() - 2] == '.' && s.last() == '\n' {
        sentence_pieces(s.subrange(0, s.len() - 2)).push(seq![])
    } else {
        let p = sentence_pieces(s.drop_last());
        p.update(p.len() - 1, p.last().push(s.last()))
    }
}

/// Lemma: the pieces of a text are never an empty list.
pub proof fn lemma_sentence_pieces_nonempty(s: Seq<char>)
    ensures
        sentence_pieces(s).len() >= 1,
    decreases s.len(),
{
    if s.len() == 0 {
    } else if s.len() >= 2 && s[s.len() - 2] == '.' && s.last() == '\n' {
        lemma_sentence_pieces_nonempty(s.subrange(0, s.len() - 2));
    } else {
        lemma_sentence_pieces_nonempty(s.drop_last());
    }
}

/// Pieces joined with `.\n` between consecutive ones.
pub open spec fn join_sentences(ps: Seq<Seq<char>>) -> Seq<char>
    decreases ps.len(),
{
    if ps.len() == 0 {
        seq![]
    } else if ps.len() == 1 {
        ps[0]
    } else {
        join_sentences(ps.drop_last()) + seq!['.', '\n'] + ps.last()
    }
}

/// `p` holds the two characters `.\n` one after the other.
pub open spec fn has_sentence_end(p: Seq<char>) -> bool {
    exists|i: int| 0 <= i < p.len() - 1 && #[trigger] p[i] == '.' && p[i + 1] == '\n'
}

/// Lemma: appending a character to the last piece appends it to the
/// joined text; the joined text ends with the last piece.
proof fn lemma_join_sentences_push(ps: Seq<Seq<char>>, c: char)
    requires
        ps.len() >= 1,
    ensures
        join_sentences(ps.update(ps.len() - 1, ps.last().push(c))) == join_sentences(ps).push(c),
        join_sentences(ps).len() >= ps.last().len(),
        ps.last().len() > 0 ==> join_sentences(ps).last() == ps.last().last(),
{
    let up = ps.update(ps.len() - 1, ps.last().push(c));
    if ps.len() == 1 {
        assert(join_sentences(up) == up[0]);
    } else {
        assert(up.drop_last() == ps.drop_last());
        assert(up.last() == ps.last().push(c));
        assert(join_sentences(up) == join_sentences(ps.drop_last()) + seq!['.', '\n'] + ps.last().push(c));
        assert(join_sentences(up) =~= join_sentences(ps).push(c));
    }
}

/// Law: the sentences of a text are exactly the pieces between its
/// occurrences of `.\n`: joined with `.\n` between consecutive pieces they
/// give back the text, and no piece holds `.\n`.
pub proof fn law_sentences_join(s: Seq<char>)
    ensures
        join_sentences(sentence_pieces(s)) == s,
        forall|i: int| 0 <= i < sentence_pieces(s).len() ==> !has_sentence_end(#[trigger] sentence_pieces(s)[i]),
    decreases s.len(),
{
    if s.len() == 0 {
    } else if s.len() >= 2 && s[s.len() - 2] == '.' && s.last() == '\n' {
        let s1 = s.subrange(0, s.len() - 2);
        law_sentences_join(s1);
        lemma_sentence_pieces_nonempty(s1);
        let p = sentence_pieces(s1);
        let q = p.push(seq![]);
        assert(q.drop_last() == p);
        assert(join_sentences(q) == s1 + seq!['.', '\n'] + Seq::<char>::empty());
        assert(join_sentences(q) =~= s);
        assert forall|i: int| 0 <= i < q.len() implies !has_sentence_end(#[trigger] q[i]) by {
            if i < p.len() {
                assert(q[i] == p[i]);
            } else {
                assert(q[i] == Seq::<char>::empty());
            }
        }
    } else {
        let s1 = s.drop_last();
        law_sentences_join(s1);
        lemma_sentence_pieces_nonempty(s1);
        let p = sentence_pieces(s1);
        let c = s.last();
        lemma_join_sentences_push(p, c);
        let q = p.update(p.len() - 1, p.last().push(c));
        assert(join_sentences(q) =~= s);
        let l = p.last();
        assert forall|i: int| 0 <= i < q.len() implies !has_sentence_end(#[trigger] q[i]) by {
            if i < p.len() - 1 {
                assert(q[i] == p[i]);
            } else {
                let lc = l.push(c);
                assert(q[i] == lc);
                assert(!has_sentence_end(l));
                if has_sentence_end(lc) {
                    let k = choose|k: int| 0 <= k < lc.len() - 1 && #[trigger] lc[k] == '.' && lc[k + 1] == '\n';
                    if k + 1 < l.len() {
                        assert(l[k] == '.' && l[k + 1] == '\n');
                    } else {
                        assert(k == l.len() - 1);
                        assert(l.last() == '.');
                        assert(s1.last() == '.');
                        assert(s[s.len() - 2] == s1.last());
                        assert(c == '\n');
                    }
                }
            }
        }
    }
}

/// The pieces of `s` between occurrences of `.\n`.
pub fn split_sentences(s: &str) -> (r: Vec<String>)
    ensures
        views(r@) == sentence_pieces(s@),
{
    let ghost text = s@;
    let chars = chars_of(s);
    let n = chars.len();
    let mut r: Vec<String> = Vec::new();
    let mut start: usize = 0;
    let mut i: usize = 0;
    assert(text.take(0) == Seq::<char>::empty());
    assert(views(r@).push(chars@.subrange(0, 0)) == seq![Seq::<char>::empty()]);
    while i < n
        invariant
            chars@ == text,
            n == text.len(),
            start <= i <= n,
            0 < i < n ==> !(text[i - 1] == '.' && text[i as int] == '\n'),
            views(r@).push(chars@.subrange(start as int, i as int)) == sentence_pieces(
                text.take(i as int),
            ),
        decreases n - i,
    {
        if chars[i] == '.' && i + 1 < n && chars[i + 1] == '\n' {
            let ghost before = r@;
            let piece = string_from_range(&chars, start, i);
            r.push(piece);
            assert(views(r@) == views(before).push(piece@));
            let ghost t2 = text.take(i + 2);
            assert(t2.subrange(0, i as int) == text.take(i as int));
            assert(t2[t2.len() - 2] == '.' && t2.last() == '\n');
            assert(sentence_pieces(t2) == sentence_pieces(text.take(i as int)).push(seq![]));
            i = i + 2;
            assert(chars@.subrange(i as int, i as int) == Seq::<char>::empty());
            start = i;
            assert(views(r@).push(chars@.subrange(start as int, i as int)) == sentence_pieces(
                text.take(i as int),
            ));
        } else {
            assert(text.take(i + 1).drop_last() == text.take(i as int));
            proof {
                lemma_sentence_pieces_nonempty(text.take(i as int));
            }
            let ghost p = sentence_pieces(text.take(i as int));
            let ghost cur = chars@.subrange(start as int, i as int);
            assert(chars@.subrange(start as int, i + 1) == cur.push(text[i as int]));
            assert(views(r@).push(cur.push(text[i as int])) == p.update(
                p.len() - 1,
                p.last().push(text[i as int]),
            ));
            i = i + 1;
            assert(views(r@).push(chars@.subrange(start as int, i as int)) == sentence_pieces(
                text.take(i as int),
            ));
        }
    }
    assert(text.take(n as int) == text);
    let last = string_from_range(&chars, start, n);
    r.push(last);
    r
}

/// The characters of `s`, in order.
pub fn chars_of(s: &str) -> (r: Vec<char>)
    ensures
        r@ == s@,
{
    let mut r: Vec<char> = Vec::new();
    for c in it: s.chars()
        invariant
            r@ == it.seq().take(it.index() as int),
    {
        r.push(c);
    }
    r
}

} // verus!
