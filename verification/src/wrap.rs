//! Word-wrapping of memo text.
//!
//! The text is split into raw lines at `'\n'` and each raw line into words at
//! white space. The words of a raw line are then laid out greedily: a word
//! joins the current output line unless the candidate line (the current line,
//! one space, the word) is judged too wide, in which case the current line is
//! closed and the word starts a new one. Judging a width needs a font and a
//! drawing surface, so the wrapper asks its caller: it hands out each candidate
//! line and is fed back the verdict.
use vstd::prelude::*;
use vstd::string::StrSliceExecFns;

verus! {

/// The characters with the Unicode `White_Space` property.
pub open spec fn is_white_space(c: char) -> bool {
    ||| ('\u{9}' <= c && c <= '\u{d}')
    ||| c == ' '
    ||| c == '\u{85}'
    ||| c == '\u{a0}'
    ||| c == '\u{1680}'
    ||| ('\u{2000}' <= c && c <= '\u{200a}')
    ||| c == '\u{2028}'
    ||| c == '\u{2029}'
    ||| c == '\u{202f}'
    ||| c == '\u{205f}'
    ||| c == '\u{3000}'
}

/// `char::is_whitespace`, which the standard library documents as true exactly
/// for the characters with the Unicode `White_Space` property.
#[verifier::external_body]
fn char_is_whitespace(c: char) -> (r: bool)
    ensures
        r == is_white_space(c),
{
    c.is_whitespace()
}

/// The pieces of `s` between `'\n'` characters, as `str::split('\n')` yields
/// them: always at least one piece, an empty one for each empty stretch.
pub open spec fn split_lines(s: Seq<char>) -> Seq<Seq<char>>
    decreases s.len(),
{
    if s.len() == 0 {
        seq![Seq::<char>::empty()]
    } else {
        let prev = split_lines(s.drop_last());
        if s.last() == '\n' {
            prev.push(Seq::<char>::empty())
        } else {
            prev.update(prev.len() - 1, prev.last().push(s.last()))
        }
    }
}

/// The maximal runs of non-white-space characters of `s`, in order, as
/// `str::split_whitespace` yields them.
pub open spec fn words_of(s: Seq<char>) -> Seq<Seq<char>>
    decreases s.len(),
{
    if s.len() == 0 {
        Seq::<Seq<char>>::empty()
    } else {
        let prev = words_of(s.drop_last());
        let c = s.last();
        if is_white_space(c) {
            prev
        } else if s.len() >= 2 && !is_white_space(s[s.len() - 2]) {
            prev.update(prev.len() - 1, prev.last().push(c))
        } else {
            prev.push(seq![c])
        }
    }
}

/// The words of each raw line of `text`.
pub open spec fn paragraphs(text: Seq<char>) -> Seq<Seq<Seq<char>>> {
    split_lines(text).map_values(|l: Seq<char>| words_of(l))
}

/// A text has at least one raw line.
pub proof fn lemma_split_lines_nonempty(s: Seq<char>)
    ensures
        split_lines(s).len() >= 1,
    decreases s.len(),
{
    if s.len() > 0 {
        lemma_split_lines_nonempty(s.drop_last());
    }
}

/// Every word is non-empty and free of white space; a line that ends in a
/// non-white-space character ends in a word.
pub proof fn lemma_words_of_shape(s: Seq<char>)
    ensures
        forall|k: int|
            0 <= k < words_of(s).len() ==> #[trigger] words_of(s)[k].len() > 0,
        forall|k: int, j: int|
            0 <= k < words_of(s).len() && 0 <= j < words_of(s)[k].len() ==> !is_white_space(
                #[trigger] words_of(s)[k][j],
            ),
        s.len() > 0 && !is_white_space(s.last()) ==> words_of(s).len() > 0,
    decreases s.len(),
{
    if s.len() > 0 {
        lemma_words_of_shape(s.drop_last());
        let p = s.drop_last();
        if s.len() >= 2 && !is_white_space(s[s.len() - 2]) {
            assert(p.last() == s[s.len() - 2]);
        }
    }
}

/// The words of the character ranges `ranges` of `s`.
pub open spec fn range_words(s: Seq<char>, ranges: Seq<(usize, usize)>) -> Seq<Seq<char>> {
    ranges.map_values(|r: (usize, usize)| s.subrange(r.0 as int, r.1 as int))
}

/// The strings `text[a..b]` for the character ranges `(a, b)` of `ranges`.
fn strings_of_ranges(text: &str, ranges: &Vec<(usize, usize)>) -> (out: Vec<String>)
    requires
        forall|k: int| 0 <= k < ranges@.len() ==> #[trigger] ranges@[k].0 <= ranges@[k].1 <= text@.len(),
    ensures
        out.deep_view() == range_words(text@, ranges@),
{
    let mut out: Vec<String> = Vec::new();
    let mut k: usize = 0;
    while k < ranges.len()
        invariant
            k <= ranges@.len(),
            forall|j: int| 0 <= j < ranges@.len() ==> #[trigger] ranges@[j].0 <= ranges@[j].1 <= text@.len(),
            out.deep_view() == range_words(text@, ranges@.take(k as int)),
        decreases ranges@.len() - k,
    {
        let (a, b) = ranges[k];
        let piece = text.substring_char(a, b).to_owned();
        let ghost before = out.deep_view();
        out.push(piece);
        assert(out.deep_view() =~= before.push(piece@));
        assert(ranges@.take(k + 1) == ranges@.take(k as int).push(ranges@[k as int]));
        assert(out.deep_view() =~= range_words(text@, ranges@.take(k + 1)));
        k = k + 1;
    }
    assert(ranges@.take(ranges@.len() as int) == ranges@);
    out
}

/// Splits `text` into raw lines and each raw line into words.
pub fn split_paragraphs(text: &str) -> (out: Vec<Vec<String>>)
    ensures
        out.deep_view() == paragraphs(text@),
{
    let n = text.unicode_len();
    let ghost s = text@;
    let mut out: Vec<Vec<String>> = Vec::new();
    let mut ranges: Vec<(usize, usize)> = Vec::new();
    let ghost mut raw: Seq<Seq<char>> = Seq::empty();
    let mut ls: usize = 0;
    let mut i: usize = 0;
    proof {
        assert(s.take(0) =~= Seq::<char>::empty());
        assert(s.subrange(0, 0) =~= Seq::<char>::empty());
        assert(raw.push(Seq::<char>::empty()) =~= seq![Seq::<char>::empty()]);
        assert(out.deep_view() =~= raw.map_values(|l: Seq<char>| words_of(l)));
        assert(range_words(s, ranges@) =~= Seq::<Seq<char>>::empty());
    }
    while i < n
        invariant
            n == s.len(),
            s == text@,
            ls <= i <= n,
            split_lines(s.take(i as int)) == raw.push(s.subrange(ls as int, i as int)),
            out.deep_view() == raw.map_values(|l: Seq<char>| words_of(l)),
            range_words(s, ranges@) == words_of(s.subrange(ls as int, i as int)),
            forall|k: int| 0 <= k < ranges@.len() ==> ls <= #[trigger] ranges@[k].0 <= ranges@[k].1 <= i,
            i > ls && !is_white_space(s[i - 1]) ==> ranges@.len() > 0 && ranges@.last().1 == i,
        decreases n - i,
    {
        let c = text.get_char(i);
        let ghost prefix = s.take(i as int);
        let ghost line = s.subrange(ls as int, i as int);
        assert(s.take(i + 1).drop_last() == prefix);
        assert(s.take(i + 1).last() == c);
        if c == '\n' {
            let words = strings_of_ranges(text, &ranges);
            let ghost before = out.deep_view();
            out.push(words);
            proof {
                assert(out.deep_view() =~= before.push(words_of(line)));
                raw = raw.push(line);
                assert(raw.map_values(|l: Seq<char>| words_of(l)) =~= before.push(words_of(line)));
                assert(s.subrange(i + 1, i + 1) =~= Seq::<char>::empty());
            }
            ranges = Vec::new();
            ls = i + 1;
            proof {
                assert(range_words(s, ranges@) =~= Seq::<Seq<char>>::empty());
            }
        } else {
            let ghost sub = s.subrange(ls as int, i + 1);
            assert(sub.drop_last() =~= line);
            assert(sub.last() == c);
            assert(s.subrange(ls as int, i + 1) =~= line.push(c));
            proof { lemma_split_lines_nonempty(prefix); }
            let ghost old_ranges = ranges@;
            if char_is_whitespace(c) {
            } else if i > ls && !char_is_whitespace(text.get_char(i - 1)) {
                assert(sub[sub.len() - 2] == s[i - 1]);
                let last = ranges.len() - 1;
                let (a, _b) = ranges[last];
                ranges.set(last, (a, i + 1));
                proof {
                    assert(s.subrange(a as int, i + 1) =~= s.subrange(a as int, i as int).push(c));
                    assert(range_words(s, ranges@) =~= range_words(s, old_ranges).update(
                        old_ranges.len() - 1,
                        range_words(s, old_ranges).last().push(c),
                    ));
                }
            } else {
                ranges.push((i, i + 1));
                proof {
                    assert(s.subrange(i as int, i + 1) =~= seq![c]);
                    assert(range_words(s, ranges@) =~= range_words(s, old_ranges).push(seq![c]));
                }
            }
        }
        i = i + 1;
    }
    let words = strings_of_ranges(text, &ranges);
    let ghost before = out.deep_view();
    out.push(words);
    proof {
        let line = s.subrange(ls as int, n as int);
        assert(out.deep_view() =~= before.push(words_of(line)));
        assert(s.take(n as int) =~= s);
        assert(raw.push(line).map_values(|l: Seq<char>| words_of(l)) =~= before.push(words_of(line)));
    }
    out
}

/// The words of `ws` joined by single spaces.
pub open spec fn join_words(ws: Seq<Seq<char>>) -> Seq<char>
    decreases ws.len(),
{
    if ws.len() == 0 {
        Seq::<char>::empty()
    } else if ws.len() == 1 {
        ws[0]
    } else {
        join_words(ws.drop_last()) + seq![' '] + ws.last()
    }
}

/// All the word lists of `ls`, one after the other.
pub open spec fn concat_lines(ls: Seq<Seq<Seq<char>>>) -> Seq<Seq<char>>
    decreases ls.len(),
{
    if ls.len() == 0 {
        Seq::<Seq<char>>::empty()
    } else {
        concat_lines(ls.drop_last()) + ls.last()
    }
}

/// The number of words in the raw lines of `paras` from index `line` on.
pub open spec fn words_from(paras: Seq<Seq<Seq<char>>>, line: int) -> nat
    decreases paras.len() - line,
{
    if 0 <= line < paras.len() {
        paras[line].len() + words_from(paras, line + 1)
    } else {
        0
    }
}

/// The number of words in `paras`.
pub open spec fn total_words(paras: Seq<Seq<Seq<char>>>) -> nat {
    words_from(paras, 0)
}

/// Where a wrap stands: the words of each raw line, the position of the next
/// word (raw line `line`, word `word` of it), the words of the output line
/// being built, and the word lists of the output lines already closed.
pub struct WrapState {
    pub paras: Seq<Seq<Seq<char>>>,
    pub line: nat,
    pub word: nat,
    pub current: Seq<Seq<char>>,
    pub done: Seq<Seq<Seq<char>>>,
}

/// All raw lines have been laid out.
pub open spec fn is_finished(st: WrapState) -> bool {
    st.line >= st.paras.len()
}

/// The position points at a word, unless the wrap is finished.
pub open spec fn is_settled(st: WrapState) -> bool {
    st.line < st.paras.len() ==> st.word < st.paras[st.line as int].len()
}

/// Closes the output line of each raw line whose words are all placed,
/// until the position points at a word or the wrap is finished.
pub open spec fn settle(st: WrapState) -> WrapState
    decreases st.paras.len() - st.line,
{
    if st.line < st.paras.len() && st.word >= st.paras[st.line as int].len() {
        settle(
            WrapState {
                paras: st.paras,
                line: st.line + 1,
                word: 0,
                current: Seq::<Seq<char>>::empty(),
                done: st.done.push(st.current),
            },
        )
    } else {
        st
    }
}

/// The state before any word of `text` is placed.
pub open spec fn start(text: Seq<char>) -> WrapState {
    settle(
        WrapState {
            paras: paragraphs(text),
            line: 0,
            word: 0,
            current: Seq::<Seq<char>>::empty(),
            done: Seq::<Seq<Seq<char>>>::empty(),
        },
    )
}

/// The next word to place.
pub open spec fn next_word(st: WrapState) -> Seq<char> {
    st.paras[st.line as int][st.word as int]
}

/// The line the next word would make if it joined the current line.
pub open spec fn candidate(st: WrapState) -> Seq<char> {
    join_words(st.current.push(next_word(st)))
}

/// Places the next word, given whether its candidate line is too wide: a
/// too-wide candidate closes a non-empty current line and the word starts the
/// next one; otherwise the word joins the current line.
pub open spec fn feed(st: WrapState, too_wide: bool) -> WrapState {
    let w = next_word(st);
    let breaks = too_wide && st.current.len() > 0;
    settle(
        WrapState {
            paras: st.paras,
            line: st.line,
            word: st.word + 1,
            current: if breaks {
                seq![w]
            } else {
                st.current.push(w)
            },
            done: if breaks {
                st.done.push(st.current)
            } else {
                st.done
            },
        },
    )
}

/// The state after placing words with the verdicts `vs`, one per word, in order.
pub open spec fn run(st: WrapState, vs: Seq<bool>) -> WrapState
    decreases vs.len(),
{
    if vs.len() == 0 || is_finished(st) {
        st
    } else {
        run(feed(st, vs[0]), vs.drop_first())
    }
}

/// The closed output lines as text.
pub open spec fn output(st: WrapState) -> Seq<Seq<char>> {
    st.done.map_values(|ws: Seq<Seq<char>>| join_words(ws))
}

/// The words placed so far, in text order.
pub open spec fn placed(st: WrapState) -> Seq<Seq<char>> {
    concat_lines(st.paras.take(st.line as int)) + if st.line < st.paras.len() {
        st.paras[st.line as int].take(st.word as int)
    } else {
        Seq::<Seq<char>>::empty()
    }
}

/// The number of words not yet placed.
pub open spec fn remaining_words(st: WrapState) -> int {
    words_from(st.paras, st.line as int) - st.word
}

spec fn in_bounds(st: WrapState) -> bool {
    &&& st.line <= st.paras.len()
    &&& st.line < st.paras.len() ==> st.word <= st.paras[st.line as int].len()
    &&& st.line == st.paras.len() ==> st.current.len() == 0
}

spec fn keeps_words(st: WrapState) -> bool {
    &&& in_bounds(st)
    &&& concat_lines(st.done) + st.current == placed(st)
    &&& st.done.len() >= st.line
}

spec fn lines_as_written(st: WrapState) -> bool {
    &&& in_bounds(st)
    &&& st.done == st.paras.take(st.line as int)
    &&& st.line < st.paras.len() ==> st.current == st.paras[st.line as int].take(st.word as int)
}

spec fn one_word_lines(st: WrapState) -> bool {
    &&& in_bounds(st)
    &&& st.current.len() <= 1
    &&& forall|k: int| 0 <= k < st.done.len() ==> #[trigger] st.done[k].len() <= 1
}

proof fn lemma_concat_push(ls: Seq<Seq<Seq<char>>>, l: Seq<Seq<char>>)
    ensures
        concat_lines(ls.push(l)) == concat_lines(ls) + l,
{
    assert(ls.push(l).drop_last() =~= ls);
}

proof fn lemma_concat_take_next(ls: Seq<Seq<Seq<char>>>, i: int)
    requires
        0 <= i < ls.len(),
    ensures
        concat_lines(ls.take(i + 1)) == concat_lines(ls.take(i)) + ls[i],
{
    assert(ls.take(i + 1) =~= ls.take(i).push(ls[i]));
    lemma_concat_push(ls.take(i), ls[i]);
}

proof fn lemma_settle(st: WrapState)
    requires
        in_bounds(st),
    ensures
        in_bounds(settle(st)),
        is_settled(settle(st)),
        settle(st).paras == st.paras,
        remaining_words(settle(st)) == remaining_words(st),
        keeps_words(st) ==> keeps_words(settle(st)),
        lines_as_written(st) ==> lines_as_written(settle(st)),
        one_word_lines(st) ==> one_word_lines(settle(st)),
    decreases st.paras.len() - st.line,
{
    if st.line < st.paras.len() && st.word >= st.paras[st.line as int].len() {
        let l = st.line as int;
        let next = WrapState {
            paras: st.paras,
            line: st.line + 1,
            word: 0,
            current: Seq::<Seq<char>>::empty(),
            done: st.done.push(st.current),
        };
        assert(st.paras[l].take(st.word as int) =~= st.paras[l]);
        lemma_concat_take_next(st.paras, l);
        lemma_concat_push(st.done, st.current);
        if next.line < next.paras.len() {
            assert(next.paras[next.line as int].take(0) =~= Seq::<Seq<char>>::empty());
        }
        assert(placed(next) =~= concat_lines(st.paras.take(l + 1)));
        assert(st.paras.take(l + 1) =~= st.paras.take(l).push(st.paras[l]));
        if one_word_lines(st) {
            assert forall|k: int| 0 <= k < next.done.len() implies #[trigger] next.done[k].len()
                <= 1 by {
                if k < st.done.len() {
                    assert(next.done[k] == st.done[k]);
                }
            }
        }
        lemma_settle(next);
    }
}

proof fn lemma_feed(st: WrapState, too_wide: bool)
    requires
        in_bounds(st),
        is_settled(st),
        !is_finished(st),
    ensures
        in_bounds(feed(st, too_wide)),
        is_settled(feed(st, too_wide)),
        feed(st, too_wide).paras == st.paras,
        remaining_words(feed(st, too_wide)) == remaining_words(st) - 1,
        keeps_words(st) ==> keeps_words(feed(st, too_wide)),
        lines_as_written(st) && !too_wide ==> lines_as_written(feed(st, too_wide)),
        one_word_lines(st) && too_wide ==> one_word_lines(feed(st, too_wide)),
{
    let l = st.line as int;
    let w = next_word(st);
    let breaks = too_wide && st.current.len() > 0;
    let mid = WrapState {
        paras: st.paras,
        line: st.line,
        word: st.word + 1,
        current: if breaks {
            seq![w]
        } else {
            st.current.push(w)
        },
        done: if breaks {
            st.done.push(st.current)
        } else {
            st.done
        },
    };
    assert(st.paras[l].take(st.word + 1 as int) =~= st.paras[l].take(st.word as int).push(w));
    lemma_concat_push(st.done, st.current);
    assert(placed(mid) =~= placed(st).push(w));
    if breaks {
        assert(concat_lines(mid.done) + mid.current =~= (concat_lines(st.done) + st.current).push(w));
    } else {
        assert(concat_lines(mid.done) + mid.current =~= (concat_lines(st.done) + st.current).push(w));
    }
    if one_word_lines(st) && too_wide {
        assert forall|k: int| 0 <= k < mid.done.len() implies #[trigger] mid.done[k].len() <= 1 by {
            if k < st.done.len() {
                assert(mid.done[k] == st.done[k]);
            }
        }
    }
    lemma_settle(mid);
}

proof fn lemma_run(st: WrapState, vs: Seq<bool>)
    requires
        in_bounds(st),
        is_settled(st),
    ensures
        in_bounds(run(st, vs)),
        is_settled(run(st, vs)),
        run(st, vs).paras == st.paras,
        keeps_words(st) ==> keeps_words(run(st, vs)),
        lines_as_written(st) && (forall|i: int| 0 <= i < vs.len() ==> !#[trigger] vs[i])
            ==> lines_as_written(run(st, vs)),
        one_word_lines(st) && (forall|i: int| 0 <= i < vs.len() ==> #[trigger] vs[i])
            ==> one_word_lines(run(st, vs)),
        vs.len() >= remaining_words(st) ==> is_finished(run(st, vs)),
    decreases vs.len(),
{
    if vs.len() == 0 || is_finished(st) {
        if !is_finished(st) {
            assert(words_from(st.paras, st.line as int) >= st.paras[st.line as int].len());
        }
    } else {
        lemma_feed(st, vs[0]);
        let rest = vs.drop_first();
        assert forall|i: int| 0 <= i < rest.len() implies rest[i] == vs[i + 1] by {}
        lemma_run(feed(st, vs[0]), rest);
    }
}

proof fn lemma_start(text: Seq<char>)
    ensures
        in_bounds(start(text)),
        is_settled(start(text)),
        start(text).paras == paragraphs(text),
        keeps_words(start(text)),
        lines_as_written(start(text)),
        one_word_lines(start(text)),
        remaining_words(start(text)) == total_words(paragraphs(text)),
{
    let first = WrapState {
        paras: paragraphs(text),
        line: 0,
        word: 0,
        current: Seq::<Seq<char>>::empty(),
        done: Seq::<Seq<Seq<char>>>::empty(),
    };
    lemma_paragraphs_words_nonempty(text);
    assert(first.paras.take(0) =~= Seq::<Seq<Seq<char>>>::empty());
    assert(first.paras[0].take(0) =~= Seq::<Seq<char>>::empty());
    assert(placed(first) =~= Seq::<Seq<char>>::empty());
    assert(concat_lines(first.done) + first.current =~= Seq::<Seq<char>>::empty());
    lemma_settle(first);
}

/// A stretch without white space is a single word.
pub proof fn lemma_words_of_unbroken(s: Seq<char>)
    requires
        s.len() > 0,
        forall|i: int| 0 <= i < s.len() ==> !is_white_space(#[trigger] s[i]),
    ensures
        words_of(s) == seq![s],
    decreases s.len(),
{
    if s.len() > 1 {
        let p = s.drop_last();
        lemma_words_of_unbroken(p);
        assert(s[s.len() - 2] == p[p.len() - 1]);
        assert(!is_white_space(s[s.len() - 2]));
        assert(!is_white_space(s[s.len() - 1]));
        assert(p.push(s.last()) =~= s);
        assert(words_of(p).last() == p);
        assert(words_of(s) == words_of(p).update(0, p.push(s.last())));
        assert(words_of(s) =~= seq![s]);
    } else {
        assert(s.drop_last() =~= Seq::<char>::empty());
        assert(!is_white_space(s[0]));
        assert(s.drop_last().len() == 0);
        assert(words_of(s.drop_last()) == Seq::<Seq<char>>::empty());
        assert(seq![s.last()] =~= s);
        assert(words_of(s) == Seq::<Seq<char>>::empty().push(seq![s.last()]));
        assert(words_of(s) =~= seq![s]);
    }
}

/// A stretch of white space holds no word.
pub proof fn lemma_words_of_blank(s: Seq<char>)
    requires
        forall|i: int| 0 <= i < s.len() ==> is_white_space(#[trigger] s[i]),
    ensures
        words_of(s).len() == 0,
    decreases s.len(),
{
    if s.len() > 0 {
        lemma_words_of_blank(s.drop_last());
    }
}

/// Cutting a line where white space meets the cut splits no word: the words of
/// the whole are the words of the first part followed by those of the second.
/// With the two lemmas above this determines the words of every line: a line
/// is a succession of unbroken stretches and white-space stretches.
pub proof fn lemma_words_of_concat(a: Seq<char>, b: Seq<char>)
    requires
        a.len() == 0 || b.len() == 0 || is_white_space(a.last()) || is_white_space(b[0]),
    ensures
        words_of(a + b) == words_of(a) + words_of(b),
    decreases b.len(),
{
    if b.len() == 0 {
        assert(a + b =~= a);
        assert(words_of(a) + words_of(b) =~= words_of(a));
    } else {
        let bp = b.drop_last();
        let c = b.last();
        let ab = a + b;
        assert(ab.drop_last() =~= a + bp);
        assert(ab.last() == c);
        if bp.len() > 0 {
            assert(bp[0] == b[0]);
        }
        lemma_words_of_concat(a, bp);
        let x = words_of(a);
        let y = words_of(bp);
        if is_white_space(c) {
        } else if ab.len() >= 2 && !is_white_space(ab[ab.len() - 2]) {
            if bp.len() == 0 {
                assert(ab[ab.len() - 2] == a.last());
                assert(b[0] == c);
            } else {
                assert(ab[ab.len() - 2] == bp.last());
                assert(b[b.len() - 2] == bp.last());
                lemma_words_of_shape(bp);
                assert((x + y).update((x + y).len() - 1, (x + y).last().push(c)) =~= x + y.update(
                    y.len() - 1,
                    y.last().push(c),
                ));
            }
        } else {
            if b.len() >= 2 {
                assert(ab[ab.len() - 2] == b[b.len() - 2]);
            }
            assert((x + y).push(seq![c]) =~= x + y.push(seq![c]));
        }
    }
}

/// A text without a newline is a single raw line.
pub proof fn lemma_split_lines_unbroken(s: Seq<char>)
    requires
        forall|i: int| 0 <= i < s.len() ==> #[trigger] s[i] != '\n',
    ensures
        split_lines(s) == seq![s],
    decreases s.len(),
{
    if s.len() > 0 {
        let p = s.drop_last();
        lemma_split_lines_unbroken(p);
        assert(s[s.len() - 1] != '\n');
        assert(p.push(s.last()) =~= s);
        assert(split_lines(p).last() == p);
        assert(split_lines(s) == split_lines(p).update(0, p.push(s.last())));
        assert(split_lines(s) =~= seq![s]);
    } else {
        assert(s =~= Seq::<char>::empty());
        assert(split_lines(s) =~= seq![s]);
    }
}

/// A newline ends one raw line and starts the next: the raw lines of
/// `a + "\n" + b` are those of `a` followed by those of `b`.
pub proof fn lemma_split_lines_at_newline(a: Seq<char>, b: Seq<char>)
    ensures
        split_lines(a + seq!['\n'] + b) == split_lines(a) + split_lines(b),
    decreases b.len(),
{
    let an = a + seq!['\n'];
    if b.len() == 0 {
        assert(an + b =~= an);
        assert(an.drop_last() =~= a);
        assert(split_lines(a) + split_lines(b) =~= split_lines(a).push(Seq::<char>::empty()));
    } else {
        let bp = b.drop_last();
        let c = b.last();
        assert((an + b).drop_last() =~= an + bp);
        assert((an + b).last() == c);
        lemma_split_lines_at_newline(a, bp);
        let x = split_lines(a);
        let y = split_lines(bp);
        lemma_split_lines_nonempty(bp);
        if c == '\n' {
            assert((x + y).push(Seq::<char>::empty()) =~= x + y.push(Seq::<char>::empty()));
        } else {
            assert((x + y).update((x + y).len() - 1, (x + y).last().push(c)) =~= x + y.update(
                y.len() - 1,
                y.last().push(c),
            ));
        }
    }
}

/// Joining words: one word is itself, and each further word follows the
/// words before it after a single space.
pub proof fn lemma_join_words_shape(ws: Seq<Seq<char>>, w: Seq<char>)
    ensures
        join_words(Seq::<Seq<char>>::empty()) == Seq::<char>::empty(),
        ws.len() == 0 ==> join_words(ws.push(w)) == w,
        ws.len() > 0 ==> join_words(ws.push(w)) == join_words(ws) + seq![' '] + w,
{
    assert(ws.push(w).drop_last() =~= ws);
    if ws.len() == 0 {
        assert(ws.push(w)[0] == w);
    }
}

/// The candidate line is the current line's text, a single space and the
/// next word; on an empty line, the next word alone.
pub proof fn lemma_candidate_extends_current_line(st: WrapState)
    requires
        is_settled(st),
        !is_finished(st),
    ensures
        st.current.len() == 0 ==> candidate(st) == next_word(st),
        st.current.len() > 0 ==> candidate(st) == join_words(st.current) + seq![' '] + next_word(
            st,
        ),
{
    lemma_join_words_shape(st.current, next_word(st));
}

proof fn lemma_settle_closes(m: WrapState)
    ensures
        settle(m).done.len() >= m.done.len(),
        forall|k: int| 0 <= k < m.done.len() ==> #[trigger] settle(m).done[k] == m.done[k],
        settle(m).done.len() == m.done.len() ==> settle(m).current == m.current,
        settle(m).done.len() > m.done.len() ==> settle(m).done[m.done.len() as int] == m.current,
    decreases m.paras.len() - m.line,
{
    if m.line < m.paras.len() && m.word >= m.paras[m.line as int].len() {
        let next = WrapState {
            paras: m.paras,
            line: m.line + 1,
            word: 0,
            current: Seq::<Seq<char>>::empty(),
            done: m.done.push(m.current),
        };
        lemma_settle_closes(next);
        assert(next.done[m.done.len() as int] == m.current);
        assert forall|k: int| 0 <= k < m.done.len() implies #[trigger] settle(m).done[k]
            == m.done[k] by {
            assert(next.done[k] == m.done[k]);
        }
    }
}

/// A candidate judged to fit is exactly what its output line becomes: after
/// the verdict, the line holding the word (still open, or just closed at the
/// end of its raw line) reads as the candidate, and earlier lines are untouched.
pub proof fn lemma_accepted_candidate_is_the_line(st: WrapState)
    requires
        is_settled(st),
        !is_finished(st),
    ensures
        ({
            let t = feed(st, false);
            let line = if t.done.len() > st.done.len() {
                t.done[st.done.len() as int]
            } else {
                t.current
            };
            &&& join_words(line) == candidate(st)
            &&& t.done.len() >= st.done.len()
            &&& forall|k: int| 0 <= k < st.done.len() ==> #[trigger] t.done[k] == st.done[k]
        }),
{
    let w = next_word(st);
    let mid = WrapState {
        paras: st.paras,
        line: st.line,
        word: st.word + 1,
        current: st.current.push(w),
        done: st.done,
    };
    lemma_settle_closes(mid);
}

/// A candidate judged too wide closes the current line as it was, and the
/// word starts the next line alone; earlier lines are untouched.
pub proof fn lemma_rejected_candidate_breaks_line(st: WrapState)
    requires
        is_settled(st),
        !is_finished(st),
        st.current.len() > 0,
    ensures
        ({
            let t = feed(st, true);
            let next = if t.done.len() > st.done.len() + 1 {
                t.done[st.done.len() + 1 as int]
            } else {
                t.current
            };
            &&& t.done.len() > st.done.len()
            &&& t.done[st.done.len() as int] == st.current
            &&& next == seq![next_word(st)]
            &&& forall|k: int| 0 <= k < st.done.len() ==> #[trigger] t.done[k] == st.done[k]
        }),
{
    let w = next_word(st);
    let mid = WrapState {
        paras: st.paras,
        line: st.line,
        word: st.word + 1,
        current: seq![w],
        done: st.done.push(st.current),
    };
    lemma_settle_closes(mid);
    assert(mid.done[st.done.len() as int] == st.current);
    assert forall|k: int| 0 <= k < st.done.len() implies #[trigger] feed(st, true).done[k]
        == st.done[k] by {
        assert(mid.done[k] == st.done[k]);
    }
}

/// Wrapping neither drops, repeats nor reorders words: once every word is
/// placed, the output lines hold the words of the text in order, and there
/// are at least as many output lines as raw lines.
pub proof fn lemma_wrap_keeps_words(text: Seq<char>, vs: Seq<bool>)
    requires
        is_finished(run(start(text), vs)),
    ensures
        concat_lines(run(start(text), vs).done) == concat_lines(paragraphs(text)),
        run(start(text), vs).done.len() >= paragraphs(text).len(),
{
    lemma_start(text);
    lemma_run(start(text), vs);
    let r = run(start(text), vs);
    assert(r.paras.take(r.line as int) =~= r.paras);
    assert(concat_lines(r.done) + r.current =~= concat_lines(r.done));
}

/// One verdict per word is enough to place every word.
pub proof fn lemma_wrap_finishes(text: Seq<char>, vs: Seq<bool>)
    requires
        vs.len() >= total_words(paragraphs(text)),
    ensures
        is_finished(run(start(text), vs)),
{
    lemma_start(text);
    lemma_run(start(text), vs);
}

/// When every candidate line fits, each raw line becomes exactly one output
/// line, made of its words joined by single spaces.
pub proof fn lemma_wrap_all_fit(text: Seq<char>, vs: Seq<bool>)
    requires
        forall|i: int| 0 <= i < vs.len() ==> !#[trigger] vs[i],
        is_finished(run(start(text), vs)),
    ensures
        run(start(text), vs).done == paragraphs(text),
        output(run(start(text), vs)) == paragraphs(text).map_values(
            |ws: Seq<Seq<char>>| join_words(ws),
        ),
{
    lemma_start(text);
    lemma_run(start(text), vs);
    let r = run(start(text), vs);
    assert(r.paras.take(r.line as int) =~= r.paras);
}

/// When no candidate line fits, every output line holds at most one word.
pub proof fn lemma_wrap_none_fit(text: Seq<char>, vs: Seq<bool>)
    requires
        forall|i: int| 0 <= i < vs.len() ==> #[trigger] vs[i],
    ensures
        forall|k: int|
            0 <= k < run(start(text), vs).done.len() ==> #[trigger] run(start(text), vs).done[k].len()
                <= 1,
{
    lemma_start(text);
    lemma_run(start(text), vs);
}

/// Every word of every raw line is non-empty.
pub open spec fn words_nonempty(paras: Seq<Seq<Seq<char>>>) -> bool {
    forall|i: int, j: int|
        0 <= i < paras.len() && 0 <= j < paras[i].len() ==> #[trigger] paras[i][j].len() > 0
}

proof fn lemma_paragraphs_words_nonempty(text: Seq<char>)
    ensures
        words_nonempty(paragraphs(text)),
        paragraphs(text).len() >= 1,
{
    lemma_split_lines_nonempty(text);
    assert forall|i: int, j: int|
        0 <= i < paragraphs(text).len() && 0 <= j < paragraphs(text)[i].len() implies #[trigger] paragraphs(
        text,
    )[i][j].len() > 0 by {
        lemma_words_of_shape(split_lines(text)[i]);
    }
}

/// A join of words whose last word is non-empty is non-empty; a join of no words is empty.
proof fn lemma_join_empty(ws: Seq<Seq<char>>)
    ensures
        ws.len() == 0 ==> join_words(ws).len() == 0,
        ws.len() > 0 && ws.last().len() > 0 ==> join_words(ws).len() > 0,
{
}

/// Lays out the words of a text in lines, asking its caller whether each
/// candidate line is too wide.
pub struct LineWrapper {
    paras: Vec<Vec<String>>,
    line: usize,
    word: usize,
    current: String,
    lines: Vec<String>,
    current_words: Ghost<Seq<Seq<char>>>,
    done_words: Ghost<Seq<Seq<Seq<char>>>>,
}

impl View for LineWrapper {
    type V = WrapState;

    closed spec fn view(&self) -> WrapState {
        WrapState {
            paras: self.paras.deep_view(),
            line: self.line as nat,
            word: self.word as nat,
            current: self.current_words@,
            done: self.done_words@,
        }
    }
}

impl LineWrapper {
    /// Internal consistency, whether or not the position points at a word.
    closed spec fn consistent(&self) -> bool {
        &&& words_nonempty(self@.paras)
        &&& self.line <= self@.paras.len()
        &&& self.line < self@.paras.len() ==> self.word <= self@.paras[self.line as int].len()
        &&& forall|k: int|
            0 <= k < self.current_words@.len() ==> #[trigger] self.current_words@[k].len() > 0
        &&& self.current@ == join_words(self.current_words@)
        &&& self.lines.deep_view() == output(self@)
    }

    /// The wrapper is consistent and ready for its next verdict.
    pub closed spec fn wf(&self) -> bool {
        &&& self.consistent()
        &&& is_settled(self@)
    }

    fn close_finished_lines(&mut self)
        requires
            old(self).consistent(),
        ensures
            final(self).wf(),
            final(self)@ == settle(old(self)@),
    {
        let ghost first = self@;
        while self.line < self.paras.len() && self.word >= self.paras[self.line].len()
            invariant
                self.consistent(),
                settle(self@) == settle(first),
            decreases self@.paras.len() - self.line,
        {
            let mut closed = String::new();
            std::mem::swap(&mut closed, &mut self.current);
            let ghost before = self.lines.deep_view();
            self.lines.push(closed);
            let ghost old_done = self.done_words@;
            self.done_words = Ghost(self.done_words@.push(self.current_words@));
            self.current_words = Ghost(Seq::empty());
            self.line = self.line + 1;
            self.word = 0;
            proof {
                assert(self.lines.deep_view() =~= before.push(closed@));
                assert(output(self@) =~= old_done.map_values(
                    |ws: Seq<Seq<char>>| join_words(ws),
                ).push(closed@));
            }
        }
    }

    /// A wrapper for `text`, before any verdict.
    pub fn new(text: &str) -> (w: LineWrapper)
        ensures
            w.wf(),
            w@ == start(text@),
    {
        let paras = split_paragraphs(text);
        proof {
            lemma_paragraphs_words_nonempty(text@);
        }
        let mut w = LineWrapper {
            paras,
            line: 0,
            word: 0,
            current: String::new(),
            lines: Vec::new(),
            current_words: Ghost(Seq::empty()),
            done_words: Ghost(Seq::empty()),
        };
        proof {
            assert(w.lines.deep_view() =~= output(w@));
            assert(w.current@ =~= join_words(w.current_words@));
        }
        w.close_finished_lines();
        w
    }

    /// The candidate line to be judged next, or `None` once every word is placed.
    pub fn candidate(&self) -> (c: Option<String>)
        requires
            self.wf(),
        ensures
            c is None <==> is_finished(self@),
            c matches Some(line) ==> line@ == candidate(self@),
    {
        if self.line >= self.paras.len() {
            return None;
        }
        let w = &self.paras[self.line][self.word];
        proof {
            lemma_join_empty(self.current_words@);
            assert(self.current_words@.push(w@).drop_last() =~= self.current_words@);
        }
        if self.current.as_str().is_empty() {
            Some(w.clone())
        } else {
            let mut line = self.current.clone();
            line.append(" ");
            line.append(w.as_str());
            proof {
                reveal_strlit(" ");
            }
            Some(line)
        }
    }

    /// Places the next word, given whether its candidate line is too wide.
    pub fn feed(&mut self, too_wide: bool)
        requires
            old(self).wf(),
            !is_finished(old(self)@),
        ensures
            final(self).wf(),
            final(self)@ == feed(old(self)@, too_wide),
    {
        let line_len = self.paras[self.line].len();
        let w = self.paras[self.line][self.word].clone();
        proof {
            assert(self@.paras[self.line as int].len() == line_len);
            assert(w@ == self@.paras[self.line as int][self.word as int]);
            assert(w@.len() > 0);
            lemma_join_empty(self.current_words@);
            assert(self.current_words@.push(w@).drop_last() =~= self.current_words@);
        }
        let current_empty = self.current.as_str().is_empty();
        if too_wide && !current_empty {
            let mut closed = w.clone();
            std::mem::swap(&mut closed, &mut self.current);
            let ghost before = self.lines.deep_view();
            self.lines.push(closed);
            let ghost old_done = self.done_words@;
            self.done_words = Ghost(self.done_words@.push(self.current_words@));
            self.current_words = Ghost(Seq::<Seq<char>>::empty().push(w@));
            proof {
                assert(self.lines.deep_view() =~= before.push(closed@));
                assert(output(self@) =~= old_done.map_values(
                    |ws: Seq<Seq<char>>| join_words(ws),
                ).push(closed@));
            }
        } else {
            if current_empty {
                self.current = w;
            } else {
                self.current.append(" ");
                self.current.append(w.as_str());
                proof {
                    reveal_strlit(" ");
                }
            }
            self.current_words = Ghost(self.current_words@.push(w@));
        }
        self.word = self.word + 1;
        proof {
            assert(words_nonempty(self@.paras));
            assert(self.word <= self@.paras[self.line as int].len());
            assert(forall|k: int|
                0 <= k < self.current_words@.len() ==> #[trigger] self.current_words@[k].len() > 0);
            assert(self.current@ == join_words(self.current_words@));
            assert(self.lines.deep_view() == output(self@));
        }
        self.close_finished_lines();
    }

    /// The output lines closed so far; all of them once `candidate` is `None`.
    pub fn into_lines(self) -> (lines: Vec<String>)
        requires
            self.wf(),
        ensures
            lines.deep_view() == output(self@),
    {
        self.lines
    }
}

} // verus!
