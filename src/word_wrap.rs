//! Word wrapping of receipt blocks to a fixed character width.
use vstd::prelude::*;
use crate::markdown::{
    blocks_view as blocks_view_of, cells_view, plain_format, span_of, spans_view, Alignment, BlockView, ReceiptBlock,
    ReceiptSpan, SpanFormat, SpanView,
};
use crate::text::{chars_of, is_whitespace, is_ws, push_chars, string_from};

verus! {

/// A single wrapped output line, ready for preview or printing.
#[derive(Debug, Clone, PartialEq, Eq)]
pub struct WrappedLine {
    pub spans: Vec<ReceiptSpan>,
    pub alignment: Alignment,
}

pub struct LineView {
    pub spans: Seq<SpanView>,
    pub alignment: Alignment,
}

impl View for WrappedLine {
    type V = LineView;

    open spec fn view(&self) -> LineView {
        LineView { spans: spans_view(self.spans@), alignment: self.alignment }
    }
}

pub open spec fn lines_view(l: Seq<WrappedLine>) -> Seq<LineView> {
    l.map_values(|x: WrappedLine| x@)
}

// ---------------------------------------------------------------------------
// Words
/// The scanner state while splitting into words: finished words and the word in progress.
pub struct WordScan {
    pub words: Seq<Seq<char>>,
    pub cur: Seq<char>,
}

pub open spec fn word_step(st: WordScan, c: char) -> WordScan {
    if is_ws(c) {
        if st.cur.len() > 0 {
            WordScan { words: st.words.push(st.cur), cur: Seq::empty() }
        } else {
            WordScan { words: st.words, cur: Seq::empty() }
        }
    } else {
        WordScan { words: st.words, cur: st.cur.push(c) }
    }
}

pub open spec fn word_fold(st: WordScan, s: Seq<char>) -> WordScan
    decreases s.len(),
{
    if s.len() == 0 {
        st
    } else {
        word_step(word_fold(st, s.drop_last()), s.last())
    }
}

pub open spec fn finish_words(st: WordScan) -> Seq<Seq<char>> {
    if st.cur.len() > 0 {
        st.words.push(st.cur)
    } else {
        st.words
    }
}

/// The words of a text: its maximal runs of non-whitespace characters.
pub open spec fn words_of(s: Seq<char>) -> Seq<Seq<char>> {
    finish_words(word_fold(WordScan { words: Seq::empty(), cur: Seq::empty() }, s))
}

pub open spec fn no_ws(w: Seq<char>) -> bool {
    forall|i: int| 0 <= i < w.len() ==> !is_ws(#[trigger] w[i])
}

pub open spec fn is_word(w: Seq<char>) -> bool {
    w.len() > 0 && no_ws(w)
}

pub open spec fn all_words(ws: Seq<Seq<char>>) -> bool {
    forall|i: int| 0 <= i < ws.len() ==> is_word(#[trigger] ws[i])
}

proof fn lemma_word_fold_concat(st: WordScan, a: Seq<char>, b: Seq<char>)
    ensures
        word_fold(st, a + b) == word_fold(word_fold(st, a), b),
    decreases b.len(),
{
    if b.len() == 0 {
        assert(a + b =~= a);
    } else {
        assert((a + b).drop_last() =~= a + b.drop_last());
        assert((a + b).last() == b.last());
        lemma_word_fold_concat(st, a, b.drop_last());
    }
}

proof fn lemma_word_fold_no_ws(st: WordScan, w: Seq<char>)
    requires
        no_ws(w),
    ensures
        word_fold(st, w) == (WordScan { words: st.words, cur: st.cur + w }),
    decreases w.len(),
{
    if w.len() == 0 {
        assert(st.cur + w =~= st.cur);
    } else {
        lemma_word_fold_no_ws(st, w.drop_last());
        assert(st.cur + w.drop_last() + seq![w.last()] =~= st.cur + w);
        assert((st.cur + w.drop_last()).push(w.last()) =~= st.cur + w);
    }
}

proof fn lemma_word_fold_valid(st: WordScan, s: Seq<char>)
    requires
        all_words(st.words),
        no_ws(st.cur),
    ensures
        all_words(word_fold(st, s).words),
        no_ws(word_fold(st, s).cur),
    decreases s.len(),
{
    if s.len() > 0 {
        lemma_word_fold_valid(st, s.drop_last());
        let p = word_fold(st, s.drop_last());
        let c = s.last();
        if !is_ws(c) {
            assert forall|i: int| 0 <= i < p.cur.push(c).len() implies !is_ws(
                #[trigger] p.cur.push(c)[i],
            ) by {
                if i < p.cur.len() {
                    assert(p.cur.push(c)[i] == p.cur[i]);
                }
            }
        }
    }
}

/// Every word of a text is non-empty and holds no whitespace.
pub proof fn lemma_words_valid(s: Seq<char>)
    ensures
        all_words(words_of(s)),
{
    let init = WordScan { words: Seq::empty(), cur: Seq::empty() };
    lemma_word_fold_valid(init, s);
}

/// A single word is its own only word.
pub proof fn lemma_words_of_word(w: Seq<char>)
    requires
        is_word(w),
    ensures
        words_of(w) == seq![w],
{
    let init = WordScan { words: Seq::empty(), cur: Seq::empty() };
    lemma_word_fold_no_ws(init, w);
    assert(Seq::<char>::empty() + w =~= w);
    assert(Seq::<Seq<char>>::empty().push(w) =~= seq![w]);
}

/// Appending a space and a word adds exactly that word.
pub proof fn lemma_words_of_space_word(a: Seq<char>, w: Seq<char>)
    requires
        is_word(w),
    ensures
        words_of(a + seq![' '] + w) == words_of(a).push(w),
{
    let init = WordScan { words: Seq::empty(), cur: Seq::empty() };
    lemma_word_fold_concat(init, a + seq![' '], w);
    lemma_word_fold_concat(init, a, seq![' ']);
    let sa = word_fold(init, a);
    assert(seq![' '].drop_last() =~= Seq::<char>::empty());
    assert(is_ws(' '));
    let ss = word_fold(sa, seq![' ']);
    assert(word_fold(sa, Seq::<char>::empty()) == sa);
    assert(seq![' '].last() == ' ');
    assert(ss == word_step(sa, ' '));
    assert(ss.cur =~= Seq::<char>::empty());
    assert(ss.words == finish_words(sa));
    lemma_word_fold_no_ws(ss, w);
    assert(Seq::<char>::empty() + w =~= w);
}

/// Splits text into words (whitespace-separated).
fn split_words(text: &Vec<char>) -> (r: Vec<Vec<char>>)
    ensures
        r@.map_values(|x: Vec<char>| x@) == words_of(text@),
{
    let ghost init = WordScan { words: Seq::empty(), cur: Seq::empty() };
    let mut words: Vec<Vec<char>> = Vec::new();
    let mut cur: Vec<char> = Vec::new();
    let mut i: usize = 0;
    assert(words@.map_values(|x: Vec<char>| x@) =~= Seq::<Seq<char>>::empty());
    assert(text@.subrange(0, 0) =~= Seq::<char>::empty());
    while i < text.len()
        invariant
            i <= text@.len(),
            word_fold(init, text@.subrange(0, i as int)) == (WordScan {
                words: words@.map_values(|x: Vec<char>| x@),
                cur: cur@,
            }),
        decreases text.len() - i,
    {
        let c = text[i];
        assert(text@.subrange(0, i + 1).drop_last() =~= text@.subrange(0, i as int));
        assert(text@.subrange(0, i + 1).last() == c);
        let ghost wv = words@.map_values(|x: Vec<char>| x@);
        if is_whitespace(c) {
            if cur.len() > 0 {
                let done = cur;
                cur = Vec::new();
                words.push(done);
                assert(words@.map_values(|x: Vec<char>| x@) =~= wv.push(done@));
            } else {
                assert(cur@ =~= Seq::<char>::empty());
            }
        } else {
            cur.push(c);
            assert(words@.map_values(|x: Vec<char>| x@) =~= wv);
        }
        i = i + 1;
    }
    assert(text@.subrange(0, text@.len() as int) =~= text@);
    if cur.len() > 0 {
        let ghost wv = words@.map_values(|x: Vec<char>| x@);
        let ghost cv = cur@;
        words.push(cur);
        assert(words@.map_values(|x: Vec<char>| x@) =~= wv.push(cv));
    }
    words
}

// ---------------------------------------------------------------------------
// Line text
/// The text of a line: its spans' texts, in order.
pub open spec fn texts(sp: Seq<SpanView>) -> Seq<char>
    decreases sp.len(),
{
    if sp.len() == 0 {
        Seq::empty()
    } else {
        texts(sp.drop_last()) + sp.last().text
    }
}

/// Adds text to the last span if it has the same format, else opens a new span.
pub open spec fn push_text(sp: Seq<SpanView>, t: Seq<char>, f: SpanFormat) -> Seq<SpanView> {
    if sp.len() > 0 && sp.last().format == f {
        sp.update(sp.len() - 1, span_of(sp.last().text + t, f))
    } else {
        sp.push(span_of(t, f))
    }
}

proof fn lemma_push_text(sp: Seq<SpanView>, t: Seq<char>, f: SpanFormat)
    ensures
        texts(push_text(sp, t, f)) == texts(sp) + t,
        push_text(sp, t, f).len() > 0,
{
    let r = push_text(sp, t, f);
    if sp.len() > 0 && sp.last().format == f {
        assert(r.drop_last() =~= sp.drop_last());
        assert(texts(sp.drop_last()) + (sp.last().text + t) =~= texts(sp.drop_last())
            + sp.last().text + t);
    } else {
        assert(r.drop_last() =~= sp);
    }
}

/// Adds text to the last span if it has the same format, or creates a new span.
fn push_text_to_spans(spans: &mut Vec<ReceiptSpan>, text: &Vec<char>, format: SpanFormat)
    ensures
        spans_view(final(spans)@) == push_text(spans_view(old(spans)@), text@, format),
{
    let ghost sv = spans_view(spans@);
    if spans.len() > 0 {
        let mut last = spans.pop().unwrap();
        assert(spans_view(spans@) =~= sv.drop_last());
        if last.format == format {
            push_chars(&mut last.text, text.as_slice());
            spans.push(last);
            assert(spans_view(spans@) =~= push_text(sv, text@, format));
            return ;
        }
        spans.push(last);
        assert(spans_view(spans@) =~= sv);
    }
    let n = text.len();
    let s = string_from(text.as_slice(), 0, n);
    assert(text@.subrange(0, n as int) =~= text@);
    spans.push(ReceiptSpan { text: s, format });
    assert(spans_view(spans@) =~= push_text(sv, text@, format));
}

// ---------------------------------------------------------------------------
// Wrapping
/// The wrapper's state: closed lines, the line being filled, and its length.
pub struct WrapState {
    pub lines: Seq<Seq<SpanView>>,
    pub cur: Seq<SpanView>,
    pub cur_len: int,
}

pub open spec fn initial_wrap() -> WrapState {
    WrapState { lines: Seq::empty(), cur: Seq::empty(), cur_len: 0 }
}

/// Places one word: it joins the current line, after a space, when that stays
/// within `max`; otherwise the line is closed and the word starts the next one.
pub open spec fn place_word(st: WrapState, w: Seq<char>, f: SpanFormat, max: int) -> WrapState {
    if st.cur_len == 0 {
        WrapState { lines: st.lines, cur: push_text(st.cur, w, f), cur_len: w.len() as int }
    } else if st.cur_len + 1 + w.len() <= max {
        WrapState {
            lines: st.lines,
            cur: push_text(push_text(st.cur, seq![' '], f), w, f),
            cur_len: st.cur_len + 1 + w.len(),
        }
    } else {
        WrapState {
            lines: st.lines.push(st.cur),
            cur: push_text(Seq::empty(), w, f),
            cur_len: w.len() as int,
        }
    }
}

pub open spec fn place_words(st: WrapState, ws: Seq<Seq<char>>, f: SpanFormat, max: int) -> WrapState
    decreases ws.len(),
{
    if ws.len() == 0 {
        st
    } else {
        place_word(place_words(st, ws.drop_last(), f, max), ws.last(), f, max)
    }
}

pub open spec fn place_spans(sp: Seq<SpanView>, max: int) -> WrapState
    decreases sp.len(),
{
    if sp.len() == 0 {
        initial_wrap()
    } else {
        place_words(
            place_spans(sp.drop_last(), max),
            words_of(sp.last().text),
            sp.last().format,
            max,
        )
    }
}

pub open spec fn left_line(l: Seq<SpanView>) -> LineView {
    LineView { spans: l, alignment: Alignment::Left }
}

pub open spec fn empty_line() -> LineView {
    LineView { spans: seq![span_of(Seq::empty(), plain_format())], alignment: Alignment::Left }
}

/// The wrapped lines of a span sequence; a sequence without words gives one empty line.
pub open spec fn wrap_spans_spec(sp: Seq<SpanView>, max: int) -> Seq<LineView> {
    let st = place_spans(sp, max);
    let ls = if st.cur.len() > 0 {
        st.lines.push(st.cur)
    } else {
        st.lines
    };
    if ls.len() == 0 {
        seq![empty_line()]
    } else {
        ls.map_values(|l: Seq<SpanView>| left_line(l))
    }
}

/// A line fits `max`, or its text is one single word.
pub open spec fn fits_or_one_word(l: Seq<SpanView>, max: int) -> bool {
    texts(l).len() <= max || words_of(texts(l)) == seq![texts(l)]
}

/// The words of a sequence of lines, in order.
pub open spec fn words_of_lines(ls: Seq<Seq<SpanView>>) -> Seq<Seq<char>>
    decreases ls.len(),
{
    if ls.len() == 0 {
        Seq::empty()
    } else {
        words_of_lines(ls.drop_last()) + words_of(texts(ls.last()))
    }
}

/// The words of a sequence of spans, each span split on its own, in order.
pub open spec fn words_of_spans(sp: Seq<SpanView>) -> Seq<Seq<char>>
    decreases sp.len(),
{
    if sp.len() == 0 {
        Seq::empty()
    } else {
        words_of_spans(sp.drop_last()) + words_of(sp.last().text)
    }
}

pub open spec fn wrap_inv(st: WrapState, max: int) -> bool {
    &&& st.cur_len == texts(st.cur).len()
    &&& (st.cur.len() == 0 <==> st.cur_len == 0)
    &&& fits_or_one_word(st.cur, max)
    &&& forall|i: int| 0 <= i < st.lines.len() ==> fits_or_one_word(#[trigger] st.lines[i], max)
    &&& forall|i: int| 0 <= i < st.lines.len() ==> (#[trigger] st.lines[i]).len() > 0
}

pub open spec fn placed_words(st: WrapState) -> Seq<Seq<char>> {
    words_of_lines(st.lines) + words_of(texts(st.cur))
}

proof fn lemma_place_word(st: WrapState, w: Seq<char>, f: SpanFormat, max: int)
    requires
        0 <= max,
        wrap_inv(st, max),
        is_word(w),
    ensures
        wrap_inv(place_word(st, w, f, max), max),
        placed_words(place_word(st, w, f, max)) == placed_words(st).push(w),
{
    let r = place_word(st, w, f, max);
    lemma_words_of_word(w);
    if st.cur_len == 0 {
        lemma_push_text(st.cur, w, f);
        assert(st.cur.len() == 0);
        assert(texts(st.cur) =~= Seq::<char>::empty());
        assert(Seq::<char>::empty() + w =~= w);
        assert(words_of(Seq::<char>::empty()) =~= Seq::<Seq<char>>::empty());
        assert(placed_words(r) =~= placed_words(st).push(w));
    } else if st.cur_len + 1 + w.len() <= max {
        let c1 = push_text(st.cur, seq![' '], f);
        lemma_push_text(st.cur, seq![' '], f);
        lemma_push_text(c1, w, f);
        lemma_words_of_space_word(texts(st.cur), w);
        assert(texts(r.cur) =~= texts(st.cur) + seq![' '] + w);
        assert(placed_words(r) =~= placed_words(st).push(w));
    } else {
        lemma_push_text(Seq::empty(), w, f);
        assert(texts(Seq::<SpanView>::empty()) =~= Seq::<char>::empty());
        assert(Seq::<char>::empty() + w =~= w);
        assert(r.lines.drop_last() =~= st.lines);
        assert(words_of_lines(r.lines) =~= words_of_lines(st.lines) + words_of(texts(st.cur)));
        assert(placed_words(r) =~= placed_words(st).push(w));
        assert forall|i: int| 0 <= i < r.lines.len() implies fits_or_one_word(
            #[trigger] r.lines[i],
            max,
        ) by {
            if i < st.lines.len() {
                assert(r.lines[i] == st.lines[i]);
            }
        }
        assert forall|i: int| 0 <= i < r.lines.len() implies (#[trigger] r.lines[i]).len() > 0 by {
            if i < st.lines.len() {
                assert(r.lines[i] == st.lines[i]);
            }
        }
    }
}

proof fn lemma_place_words(st: WrapState, ws: Seq<Seq<char>>, f: SpanFormat, max: int)
    requires
        0 <= max,
        wrap_inv(st, max),
        all_words(ws),
    ensures
        wrap_inv(place_words(st, ws, f, max), max),
        placed_words(place_words(st, ws, f, max)) == placed_words(st) + ws,
    decreases ws.len(),
{
    if ws.len() == 0 {
        assert(placed_words(st) + ws =~= placed_words(st));
    } else {
        assert(all_words(ws.drop_last()));
        lemma_place_words(st, ws.drop_last(), f, max);
        assert(is_word(ws[ws.len() - 1]));
        lemma_place_word(place_words(st, ws.drop_last(), f, max), ws.last(), f, max);
        assert(placed_words(st) + ws.drop_last() + seq![ws.last()] =~= placed_words(st) + ws);
    }
}

proof fn lemma_place_spans(sp: Seq<SpanView>, max: int)
    requires
        0 <= max,
    ensures
        wrap_inv(place_spans(sp, max), max),
        placed_words(place_spans(sp, max)) == words_of_spans(sp),
    decreases sp.len(),
{
    if sp.len() == 0 {
        let st = initial_wrap();
        assert(texts(st.cur) =~= Seq::<char>::empty());
        assert(words_of(Seq::<char>::empty()) =~= Seq::<Seq<char>>::empty());
        assert(placed_words(st) =~= Seq::<Seq<char>>::empty());
    } else {
        lemma_place_spans(sp.drop_last(), max);
        lemma_words_valid(sp.last().text);
        lemma_place_words(
            place_spans(sp.drop_last(), max),
            words_of(sp.last().text),
            sp.last().format,
            max,
        );
    }
}


/// What wrapping a span sequence promises: every line fits or is one single
/// word, and the words of the lines are the words of the spans, in order.
pub proof fn lemma_wrap_spans_laws(sp: Seq<SpanView>, max: int)
    requires
        0 <= max,
    ensures
        forall|i: int|
            0 <= i < wrap_spans_spec(sp, max).len() ==> fits_or_one_word(
                (#[trigger] wrap_spans_spec(sp, max)[i]).spans,
                max,
            ),
        words_of_lines(wrap_spans_spec(sp, max).map_values(|l: LineView| l.spans))
            == words_of_spans(sp),
{
    lemma_place_spans(sp, max);
    let st = place_spans(sp, max);
    let ls = if st.cur.len() > 0 {
        st.lines.push(st.cur)
    } else {
        st.lines
    };
    let r = wrap_spans_spec(sp, max);
    if st.cur.len() == 0 {
        assert(texts(st.cur) =~= Seq::<char>::empty());
        assert(words_of(Seq::<char>::empty()) =~= Seq::<Seq<char>>::empty());
        assert(placed_words(st) =~= words_of_lines(st.lines));
    } else {
        assert(ls.drop_last() =~= st.lines);
    }
    if ls.len() == 0 {
        let e = empty_line().spans;
        assert(e.drop_last() =~= Seq::<SpanView>::empty());
        assert(texts(Seq::<SpanView>::empty()) =~= Seq::<char>::empty());
        assert(e.last().text =~= Seq::<char>::empty());
        assert(texts(e) =~= Seq::<char>::empty());
        assert(words_of(Seq::<char>::empty()) =~= Seq::<Seq<char>>::empty());
        let m = r.map_values(|l: LineView| l.spans);
        assert(m.drop_last() =~= Seq::<Seq<SpanView>>::empty());
        assert(m.last() == e);
        assert(words_of_lines(Seq::<Seq<SpanView>>::empty()) =~= Seq::<Seq<char>>::empty());
        assert(words_of_lines(m) =~= Seq::<Seq<char>>::empty());
    } else {
        assert(r.map_values(|l: LineView| l.spans) =~= ls);
        assert forall|i: int| 0 <= i < r.len() implies fits_or_one_word(
            (#[trigger] r[i]).spans,
            max,
        ) by {
            assert(r[i].spans == ls[i]);
            if i < st.lines.len() {
                assert(ls[i] == st.lines[i]);
            }
        }
    }
}

/// Wraps a sequence of spans to fit within `max_chars`, breaking at word boundaries.
/// Never splits a word: a word longer than the width gets a line of its own.
pub open spec fn line_spans(l: Seq<LineView>) -> Seq<Seq<SpanView>> {
    l.map_values(|x: LineView| x.spans)
}

pub fn wrap_spans(spans: &[ReceiptSpan], max_chars: u8) -> (r: Vec<WrappedLine>)
    ensures
        lines_view(r@) == wrap_spans_spec(spans_view(spans@), max_chars as int),
        forall|i: int|
            0 <= i < r@.len() ==> fits_or_one_word((#[trigger] r@[i])@.spans, max_chars as int),
        words_of_lines(line_spans(lines_view(r@))) == words_of_spans(spans_view(spans@)),
{
    let ghost sp = spans_view(spans@);
    let ghost m = max_chars as int;
    let max = max_chars as usize;
    let mut lines: Vec<WrappedLine> = Vec::new();
    let mut current: Vec<ReceiptSpan> = Vec::new();
    let mut current_len: usize = 0;
    let mut i: usize = 0;
    assert(line_spans(lines_view(lines@)) =~= Seq::<Seq<SpanView>>::empty());
    assert(spans_view(current@) =~= Seq::<SpanView>::empty());
    assert(sp.subrange(0, 0) =~= Seq::<SpanView>::empty());
    while i < spans.len()
        invariant
            i <= spans@.len(),
            sp == spans_view(spans@),
            m == max as int,
            max == max_chars as usize,
            forall|k: int| 0 <= k < lines@.len() ==> (#[trigger] lines@[k]).alignment == Alignment::Left,
            place_spans(sp.subrange(0, i as int), m) == (WrapState {
                lines: line_spans(lines_view(lines@)),
                cur: spans_view(current@),
                cur_len: current_len as int,
            }),
        decreases spans.len() - i,
    {
        let span = &spans[i];
        let text = chars_of(span.text.as_str());
        let words = split_words(&text);
        let format = span.format;
        let ghost ws = words@.map_values(|x: Vec<char>| x@);
        let ghost st0 = place_spans(sp.subrange(0, i as int), m);
        assert(sp.subrange(0, i + 1).drop_last() =~= sp.subrange(0, i as int));
        assert(sp.subrange(0, i + 1).last() == span@);
        let mut j: usize = 0;
        assert(ws.subrange(0, 0) =~= Seq::<Seq<char>>::empty());
        while j < words.len()
            invariant
                j <= words@.len(),
                ws == words@.map_values(|x: Vec<char>| x@),
                m == max as int,
                forall|k: int| 0 <= k < lines@.len() ==> (#[trigger] lines@[k]).alignment == Alignment::Left,
                place_words(st0, ws.subrange(0, j as int), format, m) == (WrapState {
                    lines: line_spans(lines_view(lines@)),
                    cur: spans_view(current@),
                    cur_len: current_len as int,
                }),
            decreases words.len() - j,
        {
            let word = &words[j];
            let word_len = word.len();
            assert(ws.subrange(0, j + 1).drop_last() =~= ws.subrange(0, j as int));
            assert(ws.subrange(0, j + 1).last() == word@);
            if current_len == 0 {
                push_text_to_spans(&mut current, word, format);
                current_len = word_len;
            } else if word_len < max && current_len < max - word_len {
                let space = vec![' '];
                assert(space@ =~= seq![' ']);
                push_text_to_spans(&mut current, &space, format);
                push_text_to_spans(&mut current, word, format);
                current_len = current_len + 1 + word_len;
            } else {
                let ghost cv = line_spans(lines_view(lines@));
                let done = current;
                current = Vec::new();
                lines.push(WrappedLine { spans: done, alignment: Alignment::Left });
                assert(line_spans(lines_view(lines@)) =~= cv.push(spans_view(done@)));
                assert(spans_view(current@) =~= Seq::<SpanView>::empty());
                push_text_to_spans(&mut current, word, format);
                current_len = word_len;
            }
            j = j + 1;
        }
        assert(ws.subrange(0, ws.len() as int) =~= ws);
        i = i + 1;
    }
    assert(sp.subrange(0, sp.len() as int) =~= sp);
    if current.len() > 0 {
        let ghost cv = line_spans(lines_view(lines@));
        let ghost cur = spans_view(current@);
        lines.push(WrappedLine { spans: current, alignment: Alignment::Left });
        assert(line_spans(lines_view(lines@)) =~= cv.push(cur));
    }
    let ghost ls = line_spans(lines_view(lines@));
    if lines.len() == 0 {
        let mut e: Vec<ReceiptSpan> = Vec::new();
        e.push(
            ReceiptSpan {
                text: String::new(),
                format: SpanFormat { bold: false, underline: false, double_size: false },
            },
        );
        assert(spans_view(e@) =~= empty_line().spans);
        lines.push(WrappedLine { spans: e, alignment: Alignment::Left });
        assert(lines_view(lines@) =~= wrap_spans_spec(sp, m));
    } else {
        assert forall|k: int| 0 <= k < lines@.len() implies lines_view(lines@)[k] == left_line(
            ls[k],
        ) by {
            assert(lines@[k].alignment == Alignment::Left);
        }
        assert(lines_view(lines@) =~= wrap_spans_spec(sp, m));
    }
    proof {
        lemma_wrap_spans_laws(sp, m);
        assert(line_spans(wrap_spans_spec(sp, m)) == wrap_spans_spec(sp, m).map_values(
            |l: LineView| l.spans,
        ));
        assert forall|i: int| 0 <= i < lines@.len() implies fits_or_one_word(
            (#[trigger] lines@[i])@.spans,
            m,
        ) by {
            assert(lines@[i]@ == lines_view(lines@)[i]);
        }
    }
    lines
}


// ---------------------------------------------------------------------------
// Columns, dividers and whole documents
pub open spec fn spaces(n: int) -> Seq<char> {
    Seq::new(n as nat, |i: int| ' ')
}

pub open spec fn dashes(n: int) -> Seq<char> {
    Seq::new(n as nat, |i: int| '-')
}

/// Spaces between the two cells: what fills the width, or one space if the
/// texts alone meet or exceed it.
pub open spec fn column_padding(left_len: int, right_len: int, max: int) -> int {
    if left_len + right_len < max {
        max - left_len - right_len
    } else {
        1
    }
}

/// The line of a `Columns` block: the first cell left-justified, the second
/// right-justified; fewer than two cells pass through unpadded.
pub open spec fn columns_line(cells: Seq<Seq<SpanView>>, max: int) -> LineView {
    if cells.len() == 0 {
        left_line(Seq::empty())
    } else if cells.len() < 2 {
        left_line(cells[0])
    } else {
        let pad = column_padding(texts(cells[0]).len() as int, texts(cells[1]).len() as int, max);
        left_line(cells[0].push(span_of(spaces(pad), plain_format())) + cells[1])
    }
}

proof fn lemma_texts_concat(a: Seq<SpanView>, b: Seq<SpanView>)
    ensures
        texts(a + b) == texts(a) + texts(b),
    decreases b.len(),
{
    if b.len() == 0 {
        assert(a + b =~= a);
        assert(texts(a) + texts(b) =~= texts(a));
    } else {
        assert((a + b).drop_last() =~= a + b.drop_last());
        lemma_texts_concat(a, b.drop_last());
        assert(texts(a) + texts(b.drop_last()) + b.last().text =~= texts(a) + texts(b));
    }
}

/// Computes the total character length of the spans of a line (saturating at
/// the largest `usize`).
pub fn line_char_count(spans: &[ReceiptSpan]) -> (r: usize)
    ensures
        r as int == if texts(spans_view(spans@)).len() <= usize::MAX {
            texts(spans_view(spans@)).len() as int
        } else {
            usize::MAX as int
        },
{
    let ghost sp = spans_view(spans@);
    let mut total: usize = 0;
    let mut i: usize = 0;
    assert(sp.subrange(0, 0) =~= Seq::<SpanView>::empty());
    while i < spans.len()
        invariant
            i <= spans@.len(),
            sp == spans_view(spans@),
            total as int == if texts(sp.subrange(0, i as int)).len() <= usize::MAX {
                texts(sp.subrange(0, i as int)).len() as int
            } else {
                usize::MAX as int
            },
        decreases spans.len() - i,
    {
        let n = spans[i].text.as_str().unicode_len();
        assert(sp.subrange(0, i + 1).drop_last() =~= sp.subrange(0, i as int));
        assert(sp.subrange(0, i + 1).last() == spans@[i as int]@);
        if n > usize::MAX - total {
            total = usize::MAX;
        } else {
            total = total + n;
        }
        i = i + 1;
    }
    assert(sp.subrange(0, sp.len() as int) =~= sp);
    total
}

fn copy_spans(spans: &Vec<ReceiptSpan>) -> (r: Vec<ReceiptSpan>)
    ensures
        spans_view(r@) == spans_view(spans@),
{
    let mut r: Vec<ReceiptSpan> = Vec::new();
    let mut i: usize = 0;
    while i < spans.len()
        invariant
            i <= spans@.len(),
            spans_view(r@) == spans_view(spans@.subrange(0, i as int)),
        decreases spans.len() - i,
    {
        let ghost before = spans_view(r@);
        r.push(spans[i].duplicate());
        assert(spans_view(r@) =~= before.push(spans@[i as int]@));
        i = i + 1;
        assert(spans_view(spans@.subrange(0, i as int)) =~= spans_view(
            spans@.subrange(0, i - 1),
        ).push(spans@[i - 1]@));
    }
    assert(spans@.subrange(0, spans@.len() as int) =~= spans@);
    r
}

/// Formats pipe-delimited columns into a single padded line.
pub fn format_columns(cells: &[Vec<ReceiptSpan>], max_chars: u8) -> (r: WrappedLine)
    ensures
        r@ == columns_line(cells_view(cells@), max_chars as int),
{
    let max = max_chars as usize;
    if cells.len() < 2 {
        let spans = if cells.len() == 0 {
            Vec::new()
        } else {
            copy_spans(&cells[0])
        };
        assert(cells.len() == 0 ==> spans_view(spans@) =~= Seq::<SpanView>::empty());
        return WrappedLine { spans, alignment: Alignment::Left };
    }
    let left_len = line_char_count(cells[0].as_slice());
    let right_len = line_char_count(cells[1].as_slice());
    let padding = if left_len < max && right_len < max - left_len {
        max - left_len - right_len
    } else {
        1
    };
    let mut pad = String::new();
    let mut k: usize = 0;
    while k < padding
        invariant
            k <= padding,
            pad@ == spaces(k as int),
        decreases padding - k,
    {
        pad.push(' ');
        k = k + 1;
        assert(pad@ =~= spaces(k as int));
    }
    let mut spans = copy_spans(&cells[0]);
    let ghost left = spans_view(spans@);
    spans.push(
        ReceiptSpan {
            text: pad,
            format: SpanFormat { bold: false, underline: false, double_size: false },
        },
    );
    let ghost mid = spans_view(spans@);
    assert(mid =~= left.push(span_of(spaces(padding as int), plain_format())));
    let mut right = copy_spans(&cells[1]);
    let ghost rv = spans_view(right@);
    spans.append(&mut right);
    assert(spans_view(spans@) =~= mid + rv);
    WrappedLine { spans, alignment: Alignment::Left }
}

pub open spec fn has_double(sp: Seq<SpanView>) -> bool {
    exists|i: int| 0 <= i < sp.len() && (#[trigger] sp[i]).format.double_size
}

pub open spec fn aligned(ls: Seq<LineView>, a: Alignment) -> Seq<LineView> {
    ls.map_values(|l: LineView| LineView { spans: l.spans, alignment: a })
}

/// The lines of one block: headings and lines with double-size text wrap at
/// half the width, headings centered; a divider is `max` dashes; a blank line
/// is one empty span.
pub open spec fn block_lines(b: BlockView, max: int) -> Seq<LineView> {
    match b {
        BlockView::Heading { spans } => aligned(wrap_spans_spec(spans, max / 2), Alignment::Center),
        BlockView::Line { spans, alignment } => aligned(
            wrap_spans_spec(
                spans,
                if has_double(spans) {
                    max / 2
                } else {
                    max
                },
            ),
            alignment,
        ),
        BlockView::Divider => seq![left_line(seq![span_of(dashes(max), plain_format())])],
        BlockView::Columns { cells } => seq![columns_line(cells, max)],
        BlockView::BlankLine => seq![empty_line()],
    }
}

pub open spec fn document_lines(bs: Seq<BlockView>, max: int) -> Seq<LineView>
    decreases bs.len(),
{
    if bs.len() == 0 {
        Seq::empty()
    } else {
        document_lines(bs.drop_last(), max) + block_lines(bs.last(), max)
    }
}

fn set_alignment(lines: &mut Vec<WrappedLine>, a: Alignment)
    ensures
        lines_view(final(lines)@) == aligned(lines_view(old(lines)@), a),
{
    let ghost orig = lines_view(lines@);
    let mut i: usize = 0;
    assert forall|k: int| 0 <= k < lines@.len() implies (#[trigger] lines@[k])@ == orig[k] by {
        assert(orig[k] == lines@[k]@);
    }
    while i < lines.len()
        invariant
            i <= lines@.len(),
            orig.len() == lines@.len(),
            forall|k: int| 0 <= k < i ==> (#[trigger] lines@[k])@ == (LineView { spans: orig[k].spans, alignment: a }),
            forall|k: int| i <= k < lines@.len() ==> (#[trigger] lines@[k])@ == orig[k],
        decreases lines.len() - i,
    {
        let ghost before = lines@;
        let mut l = lines.remove(i);
        l.alignment = a;
        lines.insert(i, l);
        assert(lines@ =~= before.update(i as int, l));
        i = i + 1;
    }
    assert forall|k: int| 0 <= k < lines@.len() implies lines_view(lines@)[k] == aligned(orig, a)[k] by {
        assert(lines_view(lines@)[k] == lines@[k]@);
    }
    assert(lines_view(lines@) =~= aligned(orig, a));
}

/// Wraps a full document of receipt blocks into output lines.
pub fn wrap_document(blocks: &[ReceiptBlock], max_chars: u8) -> (r: Vec<WrappedLine>)
    ensures
        lines_view(r@) == document_lines(blocks_view_of(blocks@), max_chars as int),
{
    let ghost bs = blocks_view_of(blocks@);
    let mut lines: Vec<WrappedLine> = Vec::new();
    let mut i: usize = 0;
    assert(bs.subrange(0, 0) =~= Seq::<BlockView>::empty());
    assert(lines_view(lines@) =~= Seq::<LineView>::empty());
    while i < blocks.len()
        invariant
            i <= blocks@.len(),
            bs == blocks_view_of(blocks@),
            lines_view(lines@) == document_lines(bs.subrange(0, i as int), max_chars as int),
        decreases blocks.len() - i,
    {
        assert(bs.subrange(0, i + 1).drop_last() =~= bs.subrange(0, i as int));
        assert(bs.subrange(0, i + 1).last() == blocks@[i as int]@);
        let ghost before = lines_view(lines@);
        let mut more: Vec<WrappedLine> = Vec::new();
        match &blocks[i] {
            ReceiptBlock::Heading { spans } => {
                more = wrap_spans(spans.as_slice(), max_chars / 2);
                set_alignment(&mut more, Alignment::Center);
            },
            ReceiptBlock::Line { spans, alignment } => {
                let mut has_double_span = false;
                let mut k: usize = 0;
                while k < spans.len()
                    invariant
                        k <= spans@.len(),
                        has_double_span == exists|j: int| 0 <= j < k && (#[trigger] spans@[j]).format.double_size,
                    decreases spans.len() - k,
                {
                    if spans[k].format.double_size {
                        has_double_span = true;
                    }
                    k = k + 1;
                }
                proof {
                    let sv = spans_view(spans@);
                    if has_double_span {
                        let j = choose|j: int| 0 <= j < k && (#[trigger] spans@[j]).format.double_size;
                        assert(sv[j].format.double_size);
                    } else {
                        assert forall|j: int| 0 <= j < sv.len() implies !(#[trigger] sv[j]).format.double_size by {
                            assert(sv[j] == spans@[j]@);
                        }
                    }
                }
                let effective = if has_double_span {
                    max_chars / 2
                } else {
                    max_chars
                };
                more = wrap_spans(spans.as_slice(), effective);
                set_alignment(&mut more, *alignment);
            },
            ReceiptBlock::Divider => {
                let mut d = String::new();
                let mut k: u8 = 0;
                while k < max_chars
                    invariant
                        k <= max_chars,
                        d@ == dashes(k as int),
                    decreases max_chars - k,
                {
                    d.push('-');
                    k = k + 1;
                    assert(d@ =~= dashes(k as int));
                }
                let mut sp: Vec<ReceiptSpan> = Vec::new();
                sp.push(ReceiptSpan { text: d, format: SpanFormat { bold: false, underline: false, double_size: false } });
                assert(spans_view(sp@) =~= seq![span_of(dashes(max_chars as int), plain_format())]);
                more.push(WrappedLine { spans: sp, alignment: Alignment::Left });
                assert(lines_view(more@) =~= seq![left_line(seq![span_of(dashes(max_chars as int), plain_format())])]);
            },
            ReceiptBlock::Columns { cells } => {
                more.push(format_columns(cells.as_slice(), max_chars));
                assert(lines_view(more@) =~= seq![more@[0]@]);
            },
            ReceiptBlock::BlankLine => {
                let mut sp: Vec<ReceiptSpan> = Vec::new();
                sp.push(ReceiptSpan { text: String::new(), format: SpanFormat { bold: false, underline: false, double_size: false } });
                assert(spans_view(sp@) =~= empty_line().spans);
                more.push(WrappedLine { spans: sp, alignment: Alignment::Left });
                assert(lines_view(more@) =~= seq![empty_line()]);
            },
        }
        assert(lines_view(more@) == block_lines(blocks@[i as int]@, max_chars as int));
        let ghost mv = lines_view(more@);
        lines.append(&mut more);
        assert(lines_view(lines@) =~= before + mv);
        i = i + 1;
    }
    assert(bs.subrange(0, bs.len() as int) =~= bs);
    lines
}


proof fn lemma_texts_single(t: Seq<char>, f: SpanFormat)
    ensures
        texts(seq![span_of(t, f)]) == t,
{
    assert(seq![span_of(t, f)].drop_last() =~= Seq::<SpanView>::empty());
    assert(texts(Seq::<SpanView>::empty()) + t =~= t);
}

/// A divider wraps to one line of exactly `max` dashes.
pub proof fn lemma_divider_full_width(max: int)
    requires
        0 <= max,
    ensures
        document_lines(seq![BlockView::Divider], max).len() == 1,
        texts(document_lines(seq![BlockView::Divider], max)[0].spans) == dashes(max),
        dashes(max).len() == max,
        forall|i: int| 0 <= i < max ==> #[trigger] dashes(max)[i] == '-',
{
    let bs = seq![BlockView::Divider];
    assert(bs.drop_last() =~= Seq::<BlockView>::empty());
    assert(document_lines(Seq::<BlockView>::empty(), max) =~= Seq::<LineView>::empty());
    assert(bs.last() == BlockView::Divider);
    assert(document_lines(bs, max) =~= Seq::<LineView>::empty() + block_lines(BlockView::Divider, max));
    assert(document_lines(bs, max) =~= block_lines(BlockView::Divider, max));
    lemma_texts_single(dashes(max), plain_format());
}

/// Two cells whose texts leave room between them are padded to exactly `max` characters.
pub proof fn lemma_two_columns_full_width(cells: Seq<Seq<SpanView>>, max: int)
    requires
        cells.len() == 2,
        texts(cells[0]).len() + texts(cells[1]).len() < max,
    ensures
        texts(columns_line(cells, max).spans).len() == max,
{
    let pad = column_padding(texts(cells[0]).len() as int, texts(cells[1]).len() as int, max);
    let l = cells[0].push(span_of(spaces(pad), plain_format()));
    lemma_texts_concat(l, cells[1]);
    assert(l.drop_last() =~= cells[0]);
}

proof fn lemma_fits_wider(l: Seq<SpanView>, a: int, b: int)
    requires
        a <= b,
        fits_or_one_word(l, a),
    ensures
        fits_or_one_word(l, b),
{
}

proof fn lemma_block_fits(b: BlockView, max: int)
    requires
        0 <= max,
        !(b is Columns),
    ensures
        forall|i: int|
            0 <= i < block_lines(b, max).len() ==> fits_or_one_word(
                (#[trigger] block_lines(b, max)[i]).spans,
                max,
            ),
{
    match b {
        BlockView::Heading { spans } => {
            lemma_wrap_spans_laws(spans, max / 2);
            let w = wrap_spans_spec(spans, max / 2);
            assert forall|i: int| 0 <= i < block_lines(b, max).len() implies fits_or_one_word(
                (#[trigger] block_lines(b, max)[i]).spans,
                max,
            ) by {
                assert(block_lines(b, max)[i].spans == w[i].spans);
                lemma_fits_wider(w[i].spans, max / 2, max);
            }
        },
        BlockView::Line { spans, alignment } => {
            let e = if has_double(spans) {
                max / 2
            } else {
                max
            };
            lemma_wrap_spans_laws(spans, e);
            let w = wrap_spans_spec(spans, e);
            assert forall|i: int| 0 <= i < block_lines(b, max).len() implies fits_or_one_word(
                (#[trigger] block_lines(b, max)[i]).spans,
                max,
            ) by {
                assert(block_lines(b, max)[i].spans == w[i].spans);
                lemma_fits_wider(w[i].spans, e, max);
            }
        },
        BlockView::Divider => {
            lemma_texts_single(dashes(max), plain_format());
        },
        BlockView::BlankLine => {
            lemma_texts_single(Seq::empty(), plain_format());
        },
        BlockView::Columns { .. } => {},
    }
}

/// Wrapping a document that has no column rows never yields a line longer
/// than `max`, unless that line's text is one single word.
pub proof fn lemma_document_fits(bs: Seq<BlockView>, max: int)
    requires
        0 <= max,
        forall|i: int| 0 <= i < bs.len() ==> !(#[trigger] bs[i] is Columns),
    ensures
        forall|i: int|
            0 <= i < document_lines(bs, max).len() ==> fits_or_one_word(
                (#[trigger] document_lines(bs, max)[i]).spans,
                max,
            ),
    decreases bs.len(),
{
    if bs.len() > 0 {
        let p = bs.drop_last();
        assert forall|i: int| 0 <= i < p.len() implies !(#[trigger] p[i] is Columns) by {
            assert(p[i] == bs[i]);
        }
        lemma_document_fits(p, max);
        assert(!(bs[bs.len() - 1] is Columns));
        lemma_block_fits(bs.last(), max);
        let d = document_lines(bs, max);
        let a = document_lines(p, max);
        let c = block_lines(bs.last(), max);
        assert forall|i: int| 0 <= i < d.len() implies fits_or_one_word(
            (#[trigger] d[i]).spans,
            max,
        ) by {
            if i < a.len() {
                assert(d[i] == a[i]);
            } else {
                assert(d[i] == c[i - a.len()]);
            }
        }
    }
}


/// The words a block contributes to a document: those of its spans.
pub open spec fn block_words(b: BlockView) -> Seq<Seq<char>> {
    match b {
        BlockView::Line { spans, .. } => words_of_spans(spans),
        BlockView::Heading { spans } => words_of_spans(spans),
        _ => Seq::empty(),
    }
}

pub open spec fn document_words(bs: Seq<BlockView>) -> Seq<Seq<char>>
    decreases bs.len(),
{
    if bs.len() == 0 {
        Seq::empty()
    } else {
        document_words(bs.drop_last()) + block_words(bs.last())
    }
}

proof fn lemma_words_of_lines_concat(a: Seq<Seq<SpanView>>, b: Seq<Seq<SpanView>>)
    ensures
        words_of_lines(a + b) == words_of_lines(a) + words_of_lines(b),
    decreases b.len(),
{
    if b.len() == 0 {
        assert(a + b =~= a);
        assert(words_of_lines(a) + words_of_lines(b) =~= words_of_lines(a));
    } else {
        assert((a + b).drop_last() =~= a + b.drop_last());
        lemma_words_of_lines_concat(a, b.drop_last());
        assert(words_of_lines(a) + words_of_lines(b.drop_last()) + words_of(texts(b.last()))
            =~= words_of_lines(a) + words_of_lines(b));
    }
}

proof fn lemma_block_keeps_words(b: BlockView, max: int)
    requires
        0 <= max,
        b is Line || b is Heading || b is BlankLine,
    ensures
        words_of_lines(line_spans(block_lines(b, max))) == block_words(b),
{
    match b {
        BlockView::Heading { spans } => {
            lemma_wrap_spans_laws(spans, max / 2);
            let w = wrap_spans_spec(spans, max / 2);
            assert(line_spans(aligned(w, Alignment::Center)) =~= w.map_values(|l: LineView| l.spans));
        },
        BlockView::Line { spans, alignment } => {
            let e = if has_double(spans) {
                max / 2
            } else {
                max
            };
            lemma_wrap_spans_laws(spans, e);
            let w = wrap_spans_spec(spans, e);
            assert(line_spans(aligned(w, alignment)) =~= w.map_values(|l: LineView| l.spans));
        },
        _ => {
            let e = empty_line().spans;
            lemma_texts_single(Seq::empty(), plain_format());
            assert(words_of(Seq::<char>::empty()) =~= Seq::<Seq<char>>::empty());
            let m = line_spans(seq![empty_line()]);
            assert(m =~= seq![e]);
            assert(m.drop_last() =~= Seq::<Seq<SpanView>>::empty());
            assert(words_of_lines(Seq::<Seq<SpanView>>::empty()) =~= Seq::<Seq<char>>::empty());
            assert(words_of_lines(m) =~= Seq::<Seq<char>>::empty());
        },
    }
}

/// Wrapping a document of lines, headings and blank lines keeps its words:
/// the words of the output lines are the words of the blocks' spans, in order,
/// none dropped, duplicated or split.
pub proof fn lemma_document_keeps_words(bs: Seq<BlockView>, max: int)
    requires
        0 <= max,
        forall|i: int|
            0 <= i < bs.len() ==> (#[trigger] bs[i] is Line) || bs[i] is Heading || bs[i] is BlankLine,
    ensures
        words_of_lines(line_spans(document_lines(bs, max))) == document_words(bs),
    decreases bs.len(),
{
    if bs.len() > 0 {
        let p = bs.drop_last();
        assert forall|i: int| 0 <= i < p.len() implies (#[trigger] p[i] is Line) || p[i] is Heading
            || p[i] is BlankLine by {
            assert(p[i] == bs[i]);
        }
        lemma_document_keeps_words(p, max);
        let k = bs.len() - 1;
        assert(bs[k] is Line || bs[k] is Heading || bs[k] is BlankLine);
        lemma_block_keeps_words(bs.last(), max);
        let a = document_lines(p, max);
        let c = block_lines(bs.last(), max);
        assert(line_spans(a + c) =~= line_spans(a) + line_spans(c));
        lemma_words_of_lines_concat(line_spans(a), line_spans(c));
    } else {
        assert(line_spans(Seq::<LineView>::empty()) =~= Seq::<Seq<SpanView>>::empty());
    }
}

/// The width a block's lines are wrapped to: half for headings and for lines
/// with double-size text, the full width otherwise.
pub open spec fn effective_width(b: BlockView, max: int) -> int {
    match b {
        BlockView::Heading { .. } => max / 2,
        BlockView::Line { spans, .. } => if has_double(spans) {
            max / 2
        } else {
            max
        },
        _ => max,
    }
}

/// Each block's lines fit its effective width unless they are one single
/// word; a divider is exactly `max` characters; two cells that leave room are
/// padded to exactly `max`.
pub proof fn lemma_block_widths(b: BlockView, max: int)
    requires
        0 <= max,
    ensures
        (b is Line || b is Heading) ==> forall|i: int|
            0 <= i < block_lines(b, max).len() ==> fits_or_one_word(
                (#[trigger] block_lines(b, max)[i]).spans,
                effective_width(b, max),
            ),
        b is Divider ==> block_lines(b, max).len() == 1 && texts(block_lines(b, max)[0].spans).len()
            == max,
        (b matches BlockView::Columns { cells } && cells.len() == 2 && texts(cells[0]).len() + texts(
            cells[1],
        ).len() < max) ==> block_lines(b, max).len() == 1 && texts(block_lines(b, max)[0].spans).len()
            == max,
{
    match b {
        BlockView::Heading { spans } => {
            lemma_wrap_spans_laws(spans, max / 2);
            let w = wrap_spans_spec(spans, max / 2);
            assert forall|i: int| 0 <= i < block_lines(b, max).len() implies fits_or_one_word(
                (#[trigger] block_lines(b, max)[i]).spans,
                effective_width(b, max),
            ) by {
                assert(block_lines(b, max)[i].spans == w[i].spans);
            }
        },
        BlockView::Line { spans, alignment } => {
            let e = effective_width(b, max);
            lemma_wrap_spans_laws(spans, e);
            let w = wrap_spans_spec(spans, e);
            assert forall|i: int| 0 <= i < block_lines(b, max).len() implies fits_or_one_word(
                (#[trigger] block_lines(b, max)[i]).spans,
                e,
            ) by {
                assert(block_lines(b, max)[i].spans == w[i].spans);
            }
        },
        BlockView::Divider => {
            lemma_texts_single(dashes(max), plain_format());
        },
        BlockView::Columns { cells } => {
            if cells.len() == 2 && texts(cells[0]).len() + texts(cells[1]).len() < max {
                lemma_two_columns_full_width(cells, max);
            }
        },
        BlockView::BlankLine => {},
    }
}
} // verus!
