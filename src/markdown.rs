//! Receipt markdown: styled spans, blocks, and the parser from text to blocks.
use vstd::prelude::*;
use crate::text::{
    chars_of, contains_char, lines_chars, lines_of, occurs_at, occurs_at_exec, split_chars,
    split_on, string_from, trim, trimmed,
};
use pulldown_cmark::{Event, Options, Parser, Tag, TagEnd};

verus! {

/// Formatting state for a span of receipt text.
#[derive(Debug, Clone, Copy, PartialEq, Eq, Structural)]
pub struct SpanFormat {
    pub bold: bool,
    pub underline: bool,
    pub double_size: bool,
}

pub open spec fn plain_format() -> SpanFormat {
    SpanFormat { bold: false, underline: false, double_size: false }
}

pub open spec fn bold_format() -> SpanFormat {
    SpanFormat { bold: true, underline: false, double_size: false }
}

pub open spec fn underline_format() -> SpanFormat {
    SpanFormat { bold: false, underline: true, double_size: false }
}

pub open spec fn heading_format() -> SpanFormat {
    SpanFormat { bold: true, underline: false, double_size: true }
}

impl Default for SpanFormat {
    fn default() -> (r: SpanFormat)
        ensures
            r == plain_format(),
    {
        SpanFormat { bold: false, underline: false, double_size: false }
    }
}

/// A single styled run of text (no newlines).
#[derive(Debug, Clone, PartialEq, Eq)]
pub struct ReceiptSpan {
    pub text: String,
    pub format: SpanFormat,
}

/// What a span holds: its characters and its format.
pub struct SpanView {
    pub text: Seq<char>,
    pub format: SpanFormat,
}

impl View for ReceiptSpan {
    type V = SpanView;

    open spec fn view(&self) -> SpanView {
        SpanView { text: self.text@, format: self.format }
    }
}

pub open spec fn spans_view(s: Seq<ReceiptSpan>) -> Seq<SpanView> {
    s.map_values(|x: ReceiptSpan| x@)
}

pub open spec fn span_of(text: Seq<char>, format: SpanFormat) -> SpanView {
    SpanView { text, format }
}

impl ReceiptSpan {
    pub fn plain(text: &str) -> (r: ReceiptSpan)
        ensures
            r@ == span_of(text@, plain_format()),
    {
        ReceiptSpan { text: text.to_owned(), format: SpanFormat::default() }
    }

    pub fn bold(text: &str) -> (r: ReceiptSpan)
        ensures
            r@ == span_of(text@, bold_format()),
    {
        ReceiptSpan {
            text: text.to_owned(),
            format: SpanFormat { bold: true, underline: false, double_size: false },
        }
    }

    pub fn underlined(text: &str) -> (r: ReceiptSpan)
        ensures
            r@ == span_of(text@, underline_format()),
    {
        ReceiptSpan {
            text: text.to_owned(),
            format: SpanFormat { bold: false, underline: true, double_size: false },
        }
    }

    pub fn heading(text: &str) -> (r: ReceiptSpan)
        ensures
            r@ == span_of(text@, heading_format()),
    {
        ReceiptSpan {
            text: text.to_owned(),
            format: SpanFormat { bold: true, underline: false, double_size: true },
        }
    }

    /// A copy of the span, field by field.
    pub fn duplicate(&self) -> (r: ReceiptSpan)
        ensures
            r@ == self@,
    {
        ReceiptSpan { text: self.text.clone(), format: self.format }
    }
}

/// Alignment for a line or block.
#[derive(Debug, Clone, Copy, PartialEq, Eq, Structural)]
pub enum Alignment {
    Left,
    Center,
    Right,
}

impl Default for Alignment {
    fn default() -> (r: Alignment)
        ensures
            r == Alignment::Left,
    {
        Alignment::Left
    }
}

/// A parsed block ready for word-wrapping and printing.
#[derive(Debug, Clone, PartialEq, Eq)]
pub enum ReceiptBlock {
    /// A line of styled spans with alignment.
    Line { spans: Vec<ReceiptSpan>, alignment: Alignment },
    /// A heading (double-size, bold and centered text).
    Heading { spans: Vec<ReceiptSpan> },
    /// A horizontal divider.
    Divider,
    /// A columnar row from pipe syntax: `Item | $10`.
    Columns { cells: Vec<Vec<ReceiptSpan>> },
    /// A blank line.
    BlankLine,
}

/// What a block holds.
pub enum BlockView {
    Line { spans: Seq<SpanView>, alignment: Alignment },
    Heading { spans: Seq<SpanView> },
    Divider,
    Columns { cells: Seq<Seq<SpanView>> },
    BlankLine,
}

pub open spec fn cells_view(c: Seq<Vec<ReceiptSpan>>) -> Seq<Seq<SpanView>> {
    c.map_values(|x: Vec<ReceiptSpan>| spans_view(x@))
}

impl View for ReceiptBlock {
    type V = BlockView;

    open spec fn view(&self) -> BlockView {
        match self {
            ReceiptBlock::Line { spans, alignment } => BlockView::Line {
                spans: spans_view(spans@),
                alignment: *alignment,
            },
            ReceiptBlock::Heading { spans } => BlockView::Heading { spans: spans_view(spans@) },
            ReceiptBlock::Divider => BlockView::Divider,
            ReceiptBlock::Columns { cells } => BlockView::Columns { cells: cells_view(cells@) },
            ReceiptBlock::BlankLine => BlockView::BlankLine,
        }
    }
}

pub open spec fn blocks_view(b: Seq<ReceiptBlock>) -> Seq<BlockView> {
    b.map_values(|x: ReceiptBlock| x@)
}

// ---------------------------------------------------------------------------
// Inline scanner
pub open spec fn is_marker(c: char) -> bool {
    c == '*' || c == '_'
}

/// The first position at or after `i` where `d` occurs in `s`.
pub open spec fn find_from(s: Seq<char>, i: int, d: Seq<char>) -> Option<int>
    decreases s.len() + 1 - i,
{
    if i < 0 || i + d.len() > s.len() {
        None
    } else if occurs_at(s, d, i) {
        Some(i)
    } else {
        find_from(s, i + 1, d)
    }
}

/// A plain span for `s[a..b]`, if that is not empty.
pub open spec fn plain_run(s: Seq<char>, a: int, b: int) -> Seq<SpanView> {
    if a < b {
        seq![span_of(s.subrange(a, b), plain_format())]
    } else {
        Seq::empty()
    }
}

/// Length of the delimiter that starts at `pos`: 2 for a doubled marker, else 1.
pub open spec fn delim_len(s: Seq<char>, pos: int) -> int {
    if pos + 1 < s.len() && s[pos + 1] == s[pos] {
        2
    } else {
        1
    }
}

/// Doubled markers make bold text, single ones underlined text.
pub open spec fn delim_format(n: int) -> SpanFormat {
    if n == 2 {
        bold_format()
    } else {
        underline_format()
    }
}

/// The greedy left-to-right scan: plain text runs from `start`, `pos` is the
/// position being looked at.
pub open spec fn scan(s: Seq<char>, start: int, pos: int) -> Seq<SpanView>
    decreases s.len() + 1 - pos,
{
    if pos < 0 || start < 0 || start > pos || pos >= s.len() {
        plain_run(s, start, s.len() as int)
    } else if !is_marker(s[pos]) {
        scan(s, start, pos + 1)
    } else {
        let n = delim_len(s, pos);
        let d = s.subrange(pos, pos + n);
        match find_from(s, pos + n, d) {
            Some(end) => {
                let inner = s.subrange(pos + n, end);
                let emitted = if inner.len() > 0 {
                    seq![span_of(inner, delim_format(n))]
                } else {
                    Seq::empty()
                };
                // The closing delimiter always lies after the opening one and
                // inside the text; the test only lets the recursion be seen to end.
                if pos < end + n <= s.len() {
                    plain_run(s, start, pos) + emitted + scan(s, end + n, end + n)
                } else {
                    Seq::empty()
                }
            },
            None => plain_run(s, start, pos) + seq![
                span_of(s.subrange(pos, s.len() as int), plain_format()),
            ],
        }
    }
}

/// The spans of an inline fragment.
pub open spec fn inline_spans(s: Seq<char>) -> Seq<SpanView> {
    let r = scan(s, 0, 0);
    if r.len() == 0 && s.len() > 0 {
        seq![span_of(s, plain_format())]
    } else {
        r
    }
}

proof fn lemma_find_from_bounds(s: Seq<char>, i: int, d: Seq<char>)
    ensures
        find_from(s, i, d) matches Some(e) ==> i <= e && e + d.len() <= s.len() && occurs_at(
            s,
            d,
            e,
        ),
    decreases s.len() + 1 - i,
{
    if !(i < 0 || i + d.len() > s.len()) && !occurs_at(s, d, i) {
        lemma_find_from_bounds(s, i + 1, d);
    }
}

/// Finds the position of a closing delimiter, at or after `start`.
fn find_closing(input: &[char], start: usize, delimiter: &[char]) -> (r: Option<usize>)
    requires
        start <= input@.len(),
    ensures
        r matches Some(e) ==> find_from(input@, start as int, delimiter@) == Some(e as int),
        r is None ==> find_from(input@, start as int, delimiter@) is None,
{
    let mut i = start;
    while i < input.len()
        invariant
            start <= i <= input@.len(),
            find_from(input@, i as int, delimiter@) == find_from(
                input@,
                start as int,
                delimiter@,
            ),
        decreases input.len() - i,
    {
        if occurs_at_exec(input, delimiter, i) {
            return Some(i);
        }
        i = i + 1;
    }
    if occurs_at_exec(input, delimiter, i) {
        return Some(i);
    }
    assert(find_from(input@, i + 1, delimiter@) is None);
    None
}

/// Parses inline formatting (bold, underline) within a text fragment.
pub fn parse_inline(input: &str) -> (r: Vec<ReceiptSpan>)
    ensures
        spans_view(r@) == inline_spans(input@),
{
    let s = chars_of(input);
    scan_inline(&s)
}

/// The inline scanner on the characters of a fragment.
fn scan_inline(s: &Vec<char>) -> (r: Vec<ReceiptSpan>)
    ensures
        spans_view(r@) == inline_spans(s@),
{
    let len = s.len();
    let mut spans: Vec<ReceiptSpan> = Vec::new();
    let mut start: usize = 0;
    let mut pos: usize = 0;
    while pos < len
        invariant
            len == s@.len(),
            start <= pos <= len,
            spans_view(spans@) + scan(s@, start as int, pos as int) == scan(s@, 0, 0),
        decreases len - pos, len - start,
    {
        let c = s[pos];
        if c != '*' && c != '_' {
            pos = pos + 1;
        } else {
            let n: usize = if pos + 1 < len && s[pos + 1] == c {
                2
            } else {
                1
            };
            let d = if n == 2 {
                vec![c, c]
            } else {
                vec![c]
            };
            assert(d@ =~= s@.subrange(pos as int, pos + n));
            let ghost rest = scan(s@, start as int, pos as int);
            let ghost old_spans = spans_view(spans@);
            match find_closing(s, pos + n, &d) {
                Some(end) => {
                    proof {
                        lemma_find_from_bounds(s@, pos + n, d@);
                    }
                    if start < pos {
                        spans.push(
                            ReceiptSpan {
                                text: string_from(s, start, pos),
                                format: SpanFormat { bold: false, underline: false, double_size: false },
                            },
                        );
                    }
                    if end > pos + n {
                        let text = string_from(s, pos + n, end);
                        if n == 2 {
                            spans.push(
                                ReceiptSpan {
                                    text,
                                    format: SpanFormat { bold: true, underline: false, double_size: false },
                                },
                            );
                        } else {
                            spans.push(
                                ReceiptSpan {
                                    text,
                                    format: SpanFormat { bold: false, underline: true, double_size: false },
                                },
                            );
                        }
                    }
                    pos = end + n;
                    start = pos;
                    assert(spans_view(spans@) + scan(s@, start as int, pos as int) =~= scan(s@, 0, 0));
                },
                None => {
                    if start < pos {
                        spans.push(
                            ReceiptSpan {
                                text: string_from(s, start, pos),
                                format: SpanFormat { bold: false, underline: false, double_size: false },
                            },
                        );
                    }
                    spans.push(
                        ReceiptSpan {
                            text: string_from(s, pos, len),
                            format: SpanFormat { bold: false, underline: false, double_size: false },
                        },
                    );
                    assert(spans_view(spans@) =~= scan(s@, 0, 0));
                    assert(spans_view(spans@).len() > 0);
                    assert(spans_view(spans@) == inline_spans(s@));
                    return spans;
                },
            }
        }
    }
    if start < pos {
        spans.push(
            ReceiptSpan {
                text: string_from(s, start, pos),
                format: SpanFormat { bold: false, underline: false, double_size: false },
            },
        );
    }
    assert(spans_view(spans@) =~= scan(s@, 0, 0));
    if spans.len() == 0 && len > 0 {
        spans.push(
            ReceiptSpan {
                text: string_from(s, 0, len),
                format: SpanFormat { bold: false, underline: false, double_size: false },
            },
        );
        assert(s@.subrange(0, len as int) =~= s@);
        assert(spans_view(spans@) =~= inline_spans(s@));
    }
    spans
}


// ---------------------------------------------------------------------------
// Column lines
/// A line with a `|` that is neither a markdown table row, a heading nor a code fence.
pub open spec fn is_column_text(t: Seq<char>) -> bool {
    &&& t.contains('|')
    &&& !(t.len() > 0 && t[0] == '|' && t.last() == '|')
    &&& !(t.len() > 0 && t[0] == '#')
    &&& !(t.len() >= 3 && t[0] == '`' && t[1] == '`' && t[2] == '`')
}

/// The cells of a column line: split at `|`, each trimmed and scanned for inline styles.
pub open spec fn column_cells(t: Seq<char>) -> Seq<Seq<SpanView>> {
    split_on(t, '|').map_values(|c: Seq<char>| inline_spans(trim(c)))
}

/// Checks whether a trimmed line is a pipe-delimited column row.
fn is_column_line(line: &[char]) -> (r: bool)
    ensures
        r == is_column_text(line@),
{
    if !contains_char(line, '|') {
        return false;
    }
    let n = line.len();
    if n > 0 && line[0] == '|' && line[n - 1] == '|' {
        return false;
    }
    if n > 0 && line[0] == '#' {
        return false;
    }
    if n >= 3 && line[0] == '`' && line[1] == '`' && line[2] == '`' {
        return false;
    }
    true
}

/// Parses a pipe-delimited column line into a `Columns` block.
fn parse_column_line(line: &[char]) -> (r: ReceiptBlock)
    ensures
        r@ == (BlockView::Columns { cells: column_cells(line@) }),
{
    let pieces = split_chars(line, '|');
    let ghost p = pieces@.map_values(|x: Vec<char>| x@);
    let mut cells: Vec<Vec<ReceiptSpan>> = Vec::new();
    let mut i: usize = 0;
    while i < pieces.len()
        invariant
            i <= pieces@.len(),
            p == pieces@.map_values(|x: Vec<char>| x@),
            cells_view(cells@) == p.subrange(0, i as int).map_values(
                |c: Seq<char>| inline_spans(trim(c)),
            ),
        decreases pieces.len() - i,
    {
        let t = trimmed(&pieces[i]);
        let spans = scan_inline(&t);
        let ghost before = cells_view(cells@);
        cells.push(spans);
        assert(p[i as int] == pieces@[i as int]@);
        assert(cells_view(cells@) =~= before.push(inline_spans(trim(p[i as int]))));
        i = i + 1;
        assert(cells_view(cells@) =~= p.subrange(0, i as int).map_values(
            |c: Seq<char>| inline_spans(trim(c)),
        ));
    }
    assert(p.subrange(0, p.len() as int) =~= p);
    ReceiptBlock::Columns { cells }
}

// ---------------------------------------------------------------------------
// Block-level markdown
/// The markdown events that the block interpreter reads.
pub enum MdEvent {
    StrongStart,
    StrongEnd,
    EmphasisStart,
    EmphasisEnd,
    HeadingStart,
    HeadingEnd,
    ParagraphEnd,
    Text(String),
    SoftBreak,
    HardBreak,
    Rule,
    Other,
}

pub enum MdEventView {
    StrongStart,
    StrongEnd,
    EmphasisStart,
    EmphasisEnd,
    HeadingStart,
    HeadingEnd,
    ParagraphEnd,
    Text(Seq<char>),
    SoftBreak,
    HardBreak,
    Rule,
    Other,
}

impl View for MdEvent {
    type V = MdEventView;

    open spec fn view(&self) -> MdEventView {
        match self {
            MdEvent::StrongStart => MdEventView::StrongStart,
            MdEvent::StrongEnd => MdEventView::StrongEnd,
            MdEvent::EmphasisStart => MdEventView::EmphasisStart,
            MdEvent::EmphasisEnd => MdEventView::EmphasisEnd,
            MdEvent::HeadingStart => MdEventView::HeadingStart,
            MdEvent::HeadingEnd => MdEventView::HeadingEnd,
            MdEvent::ParagraphEnd => MdEventView::ParagraphEnd,
            MdEvent::Text(t) => MdEventView::Text(t@),
            MdEvent::SoftBreak => MdEventView::SoftBreak,
            MdEvent::HardBreak => MdEventView::HardBreak,
            MdEvent::Rule => MdEventView::Rule,
            MdEvent::Other => MdEventView::Other,
        }
    }
}

pub open spec fn events_view(e: Seq<MdEvent>) -> Seq<MdEventView> {
    e.map_values(|x: MdEvent| x@)
}

/// The CommonMark parser's events for a text, each reduced to the kinds that
/// the block interpreter reads.
pub uninterp spec fn markdown_events(text: Seq<char>) -> Seq<MdEventView>;

/// Relies on `pulldown_cmark::Parser::new_ext` (strikethrough enabled): its
/// events for `text`, in order, which depend on the text alone.
#[verifier::external_body]
fn markdown_event_stream(text: &str) -> (r: Vec<MdEvent>)
    ensures
        events_view(r@) == markdown_events(text@),
{
    Parser::new_ext(text, Options::ENABLE_STRIKETHROUGH).map(|e| match e {
        Event::Start(Tag::Strong) => MdEvent::StrongStart,
        Event::End(TagEnd::Strong) => MdEvent::StrongEnd,
        Event::Start(Tag::Emphasis) => MdEvent::EmphasisStart,
        Event::End(TagEnd::Emphasis) => MdEvent::EmphasisEnd,
        Event::Start(Tag::Heading { .. }) => MdEvent::HeadingStart,
        Event::End(TagEnd::Heading(_)) => MdEvent::HeadingEnd,
        Event::End(TagEnd::Paragraph) => MdEvent::ParagraphEnd,
        Event::Text(t) => MdEvent::Text(t.to_string()),
        Event::SoftBreak => MdEvent::SoftBreak,
        Event::HardBreak => MdEvent::HardBreak,
        Event::Rule => MdEvent::Rule,
        _ => MdEvent::Other,
    }).collect()
}

/// The interpreter's state between events.
pub struct EventState {
    pub blocks: Seq<BlockView>,
    pub spans: Seq<SpanView>,
    pub bold: bool,
    pub emphasis: bool,
    pub in_heading: bool,
}

pub open spec fn initial_event_state() -> EventState {
    EventState {
        blocks: Seq::empty(),
        spans: Seq::empty(),
        bold: false,
        emphasis: false,
        in_heading: false,
    }
}

/// Closes the pending spans into a block made by `mk`, if there are any.
pub open spec fn close_line(st: EventState) -> EventState {
    if st.spans.len() > 0 {
        EventState {
            blocks: st.blocks.push(BlockView::Line { spans: st.spans, alignment: Alignment::Left }),
            spans: Seq::empty(),
            ..st
        }
    } else {
        st
    }
}

/// The pieces of a text event between its newlines: each newline closes the
/// line as a hard break does, and each non-empty piece becomes a span, so no
/// span holds a newline.
pub open spec fn text_pieces(st: EventState, pieces: Seq<Seq<char>>, f: SpanFormat) -> EventState
    decreases pieces.len(),
{
    if pieces.len() == 0 {
        st
    } else {
        let p = text_pieces(st, pieces.drop_last(), f);
        let q = if pieces.len() > 1 {
            close_line(p)
        } else {
            p
        };
        if pieces.last().len() > 0 {
            EventState { spans: q.spans.push(span_of(pieces.last(), f)), ..q }
        } else {
            q
        }
    }
}

/// One event: emphasis maps to underline, headings force bold and double size,
/// soft breaks become a space, hard breaks and paragraph ends close a line.
pub open spec fn event_step(st: EventState, e: MdEventView) -> EventState {
    match e {
        MdEventView::StrongStart => EventState { bold: true, ..st },
        MdEventView::StrongEnd => EventState { bold: false, ..st },
        MdEventView::EmphasisStart => EventState { emphasis: true, ..st },
        MdEventView::EmphasisEnd => EventState { emphasis: false, ..st },
        MdEventView::HeadingStart => EventState { in_heading: true, ..st },
        MdEventView::HeadingEnd => if st.spans.len() > 0 {
            EventState {
                blocks: st.blocks.push(BlockView::Heading { spans: st.spans }),
                spans: Seq::empty(),
                in_heading: false,
                ..st
            }
        } else {
            EventState { in_heading: false, ..st }
        },
        MdEventView::ParagraphEnd => close_line(st),
        MdEventView::HardBreak => close_line(st),
        MdEventView::Text(t) => text_pieces(
            st,
            split_on(t, '\n'),
            SpanFormat {
                bold: st.bold || st.in_heading,
                underline: st.emphasis,
                double_size: st.in_heading,
            },
        ),
        MdEventView::SoftBreak => EventState {
            spans: st.spans.push(span_of(seq![' '], plain_format())),
            ..st
        },
        MdEventView::Rule => EventState { blocks: st.blocks.push(BlockView::Divider), ..st },
        MdEventView::Other => st,
    }
}

pub open spec fn events_fold(evs: Seq<MdEventView>) -> EventState
    decreases evs.len(),
{
    if evs.len() == 0 {
        initial_event_state()
    } else {
        event_step(events_fold(evs.drop_last()), evs.last())
    }
}

/// The blocks that an event stream makes; spans still pending at the end form a line.
pub open spec fn events_blocks(evs: Seq<MdEventView>) -> Seq<BlockView> {
    close_line(events_fold(evs)).blocks
}

/// Adds the text of one event, split at its newlines.
fn push_text_event(
    blocks: &mut Vec<ReceiptBlock>,
    spans: &mut Vec<ReceiptSpan>,
    t: &String,
    f: SpanFormat,
    bold: Ghost<bool>,
    emphasis: Ghost<bool>,
    in_heading: Ghost<bool>,
)
    ensures
        (EventState {
            blocks: blocks_view(final(blocks)@),
            spans: spans_view(final(spans)@),
            bold: bold@,
            emphasis: emphasis@,
            in_heading: in_heading@,
        }) == text_pieces(
            EventState {
                blocks: blocks_view(old(blocks)@),
                spans: spans_view(old(spans)@),
                bold: bold@,
                emphasis: emphasis@,
                in_heading: in_heading@,
            },
            split_on(t@, '\n'),
            f,
        ),
{
    let ghost st0 = EventState {
        blocks: blocks_view(blocks@),
        spans: spans_view(spans@),
        bold: bold@,
        emphasis: emphasis@,
        in_heading: in_heading@,
    };
    let chars = chars_of(t.as_str());
    let pieces = split_chars(chars.as_slice(), '\n');
    let ghost ps = pieces@.map_values(|x: Vec<char>| x@);
    let mut j: usize = 0;
    assert(ps.subrange(0, 0) =~= Seq::<Seq<char>>::empty());
    while j < pieces.len()
        invariant
            j <= pieces@.len(),
            ps == pieces@.map_values(|x: Vec<char>| x@),
            ps == split_on(t@, '\n'),
            text_pieces(st0, ps.subrange(0, j as int), f) == (EventState {
                blocks: blocks_view(blocks@),
                spans: spans_view(spans@),
                bold: bold@,
                emphasis: emphasis@,
                in_heading: in_heading@,
            }),
        decreases pieces.len() - j,
    {
        let piece = &pieces[j];
        assert(ps.subrange(0, j + 1).drop_last() =~= ps.subrange(0, j as int));
        assert(ps.subrange(0, j + 1).last() == piece@);
        if j > 0 && spans.len() > 0 {
            let ghost bv = blocks_view(blocks@);
            let ghost sv = spans_view(spans@);
            let mut done: Vec<ReceiptSpan> = Vec::new();
            done.append(spans);
            blocks.push(ReceiptBlock::Line { spans: done, alignment: Alignment::Left });
            assert(blocks_view(blocks@) =~= bv.push(BlockView::Line { spans: sv, alignment: Alignment::Left }));
            assert(spans_view(spans@) =~= Seq::<SpanView>::empty());
        }
        if piece.len() > 0 {
            let ghost sv = spans_view(spans@);
            let n = piece.len();
            let text = string_from(piece.as_slice(), 0, n);
            assert(piece@.subrange(0, n as int) =~= piece@);
            spans.push(ReceiptSpan { text, format: f });
            assert(spans_view(spans@) =~= sv.push(span_of(piece@, f)));
        }
        j = j + 1;
    }
    assert(ps.subrange(0, ps.len() as int) =~= ps);
}

/// Interprets markdown events as receipt blocks.
pub fn blocks_from_events(events: &Vec<MdEvent>) -> (r: Vec<ReceiptBlock>)
    ensures
        blocks_view(r@) == events_blocks(events_view(events@)),
{
    let ghost evs = events_view(events@);
    let mut blocks: Vec<ReceiptBlock> = Vec::new();
    let mut spans: Vec<ReceiptSpan> = Vec::new();
    let mut bold = false;
    let mut emphasis = false;
    let mut in_heading = false;
    let mut i: usize = 0;
    assert(blocks_view(blocks@) =~= Seq::<BlockView>::empty());
    assert(spans_view(spans@) =~= Seq::<SpanView>::empty());
    assert(evs.subrange(0, 0) =~= Seq::<MdEventView>::empty());
    while i < events.len()
        invariant
            i <= events@.len(),
            evs == events_view(events@),
            events_fold(evs.subrange(0, i as int)) == (EventState {
                blocks: blocks_view(blocks@),
                spans: spans_view(spans@),
                bold,
                emphasis,
                in_heading,
            }),
        decreases events.len() - i,
    {
        assert(evs.subrange(0, i + 1).drop_last() =~= evs.subrange(0, i as int));
        assert(evs.subrange(0, i + 1).last() == events@[i as int]@);
        let ghost bv = blocks_view(blocks@);
        let ghost sv = spans_view(spans@);
        match &events[i] {
            MdEvent::StrongStart => {
                bold = true;
            },
            MdEvent::StrongEnd => {
                bold = false;
            },
            MdEvent::EmphasisStart => {
                emphasis = true;
            },
            MdEvent::EmphasisEnd => {
                emphasis = false;
            },
            MdEvent::HeadingStart => {
                in_heading = true;
            },
            MdEvent::HeadingEnd => {
                in_heading = false;
                if spans.len() > 0 {
                    let done = spans;
                    spans = Vec::new();
                    blocks.push(ReceiptBlock::Heading { spans: done });
                    assert(blocks_view(blocks@) =~= bv.push(BlockView::Heading { spans: sv }));
                    assert(spans_view(spans@) =~= Seq::<SpanView>::empty());
                }
            },
            MdEvent::ParagraphEnd | MdEvent::HardBreak => {
                if spans.len() > 0 {
                    let done = spans;
                    spans = Vec::new();
                    blocks.push(ReceiptBlock::Line { spans: done, alignment: Alignment::Left });
                    assert(blocks_view(blocks@) =~= bv.push(
                        BlockView::Line { spans: sv, alignment: Alignment::Left },
                    ));
                    assert(spans_view(spans@) =~= Seq::<SpanView>::empty());
                }
            },
            MdEvent::Text(t) => {
                let format = SpanFormat {
                    bold: bold || in_heading,
                    underline: emphasis,
                    double_size: in_heading,
                };
                push_text_event(
                    &mut blocks,
                    &mut spans,
                    t,
                    format,
                    Ghost(bold),
                    Ghost(emphasis),
                    Ghost(in_heading),
                );
            },
            MdEvent::SoftBreak => {
                spans.push(ReceiptSpan::plain(" "));
                proof {
                    reveal_strlit(" ");
                }
                assert(" "@ =~= seq![' ']);
                assert(spans_view(spans@) =~= sv.push(span_of(seq![' '], plain_format())));
            },
            MdEvent::Rule => {
                blocks.push(ReceiptBlock::Divider);
                assert(blocks_view(blocks@) =~= bv.push(BlockView::Divider));
            },
            MdEvent::Other => {},
        }
        i = i + 1;
    }
    assert(evs.subrange(0, events@.len() as int) =~= evs);
    if spans.len() > 0 {
        let ghost bv = blocks_view(blocks@);
        let ghost sv = spans_view(spans@);
        blocks.push(ReceiptBlock::Line { spans, alignment: Alignment::Left });
        assert(blocks_view(blocks@) =~= bv.push(
            BlockView::Line { spans: sv, alignment: Alignment::Left },
        ));
    }
    blocks
}

/// Blocks after the pending markdown text `buf` is interpreted.
pub open spec fn flush_spec(blocks: Seq<BlockView>, buf: Seq<char>) -> Seq<BlockView> {
    if buf.len() == 0 {
        blocks
    } else {
        blocks + events_blocks(markdown_events(buf))
    }
}

/// Runs the accumulated markdown text through the CommonMark parser and appends its blocks.
fn flush_markdown(buf: &mut Vec<char>, blocks: &mut Vec<ReceiptBlock>)
    ensures
        blocks_view(final(blocks)@) == flush_spec(blocks_view(old(blocks)@), old(buf)@),
        final(buf)@.len() == 0,
{
    if buf.len() == 0 {
        return ;
    }
    let text = string_from(buf, 0, buf.len());
    assert(buf@.subrange(0, buf@.len() as int) =~= buf@);
    let events = markdown_event_stream(text.as_str());
    let mut more = blocks_from_events(&events);
    let ghost before = blocks_view(blocks@);
    let ghost extra = blocks_view(more@);
    blocks.append(&mut more);
    assert(blocks_view(blocks@) =~= before + extra);
    *buf = Vec::new();
}

/// The parser's state between input lines: blocks so far and pending markdown text.
pub struct LineState {
    pub blocks: Seq<BlockView>,
    pub buf: Seq<char>,
}

/// One input line: a blank line flushes and emits `BlankLine`, a column line
/// flushes and emits `Columns`, anything else joins the pending markdown text.
pub open spec fn line_step(st: LineState, line: Seq<char>) -> LineState {
    let t = trim(line);
    if t.len() == 0 {
        LineState { blocks: flush_spec(st.blocks, st.buf).push(BlockView::BlankLine), buf: Seq::empty() }
    } else if is_column_text(t) {
        LineState {
            blocks: flush_spec(st.blocks, st.buf).push(BlockView::Columns { cells: column_cells(t) }),
            buf: Seq::empty(),
        }
    } else if st.buf.len() == 0 {
        LineState { blocks: st.blocks, buf: line }
    } else {
        LineState { blocks: st.blocks, buf: st.buf.push('\n') + line }
    }
}

pub open spec fn lines_fold(ls: Seq<Seq<char>>) -> LineState
    decreases ls.len(),
{
    if ls.len() == 0 {
        LineState { blocks: Seq::empty(), buf: Seq::empty() }
    } else {
        line_step(lines_fold(ls.drop_last()), ls.last())
    }
}

/// The blocks of a receipt markdown text.
pub open spec fn parse_spec(input: Seq<char>) -> Seq<BlockView> {
    let st = lines_fold(lines_of(input));
    flush_spec(st.blocks, st.buf)
}

/// Parses receipt markdown into blocks: CommonMark for bold, emphasis (printed
/// underlined), headings and rules, plus `left | right` column rows.
pub fn parse_receipt_markdown(input: &str) -> (r: Vec<ReceiptBlock>)
    ensures
        blocks_view(r@) == parse_spec(input@),
{
    let chars = chars_of(input);
    let lines = lines_chars(&chars);
    let ghost ls = lines@.map_values(|x: Vec<char>| x@);
    let mut blocks: Vec<ReceiptBlock> = Vec::new();
    let mut buf: Vec<char> = Vec::new();
    let mut i: usize = 0;
    assert(blocks_view(blocks@) =~= Seq::<BlockView>::empty());
    assert(ls.subrange(0, 0) =~= Seq::<Seq<char>>::empty());
    while i < lines.len()
        invariant
            i <= lines@.len(),
            ls == lines@.map_values(|x: Vec<char>| x@),
            lines_fold(ls.subrange(0, i as int)) == (LineState {
                blocks: blocks_view(blocks@),
                buf: buf@,
            }),
        decreases lines.len() - i,
    {
        assert(ls.subrange(0, i + 1).drop_last() =~= ls.subrange(0, i as int));
        assert(ls.subrange(0, i + 1).last() == lines@[i as int]@);
        let line = &lines[i];
        let t = trimmed(line);
        if t.len() == 0 {
            flush_markdown(&mut buf, &mut blocks);
            let ghost bv = blocks_view(blocks@);
            blocks.push(ReceiptBlock::BlankLine);
            assert(blocks_view(blocks@) =~= bv.push(BlockView::BlankLine));
            assert(buf@ =~= Seq::<char>::empty());
        } else if is_column_line(&t) {
            flush_markdown(&mut buf, &mut blocks);
            let ghost bv = blocks_view(blocks@);
            let b = parse_column_line(&t);
            blocks.push(b);
            assert(blocks_view(blocks@) =~= bv.push(b@));
            assert(buf@ =~= Seq::<char>::empty());
        } else {
            if buf.len() > 0 {
                buf.push('\n');
            }
            let mut j: usize = 0;
            let ghost b0 = buf@;
            while j < line.len()
                invariant
                    j <= line@.len(),
                    buf@ == b0 + line@.subrange(0, j as int),
                decreases line.len() - j,
            {
                buf.push(line[j]);
                j = j + 1;
                assert(buf@ =~= b0 + line@.subrange(0, j as int));
            }
            assert(line@.subrange(0, line@.len() as int) =~= line@);
            assert(buf@ =~= b0 + line@);
        }
        i = i + 1;
    }
    assert(ls.subrange(0, ls.len() as int) =~= ls);
    flush_markdown(&mut buf, &mut blocks);
    blocks
}


// ---------------------------------------------------------------------------
// No span holds a newline
pub open spec fn no_char(t: Seq<char>, c: char) -> bool {
    forall|i: int| 0 <= i < t.len() ==> #[trigger] t[i] != c
}

pub open spec fn spans_free(sp: Seq<SpanView>) -> bool {
    forall|i: int| 0 <= i < sp.len() ==> no_char(#[trigger] sp[i].text, '\n')
}

pub open spec fn block_free(b: BlockView) -> bool {
    match b {
        BlockView::Line { spans, .. } => spans_free(spans),
        BlockView::Heading { spans } => spans_free(spans),
        BlockView::Columns { cells } => forall|i: int| 0 <= i < cells.len() ==> spans_free(#[trigger] cells[i]),
        _ => true,
    }
}

pub open spec fn blocks_free(bs: Seq<BlockView>) -> bool {
    forall|i: int| 0 <= i < bs.len() ==> block_free(#[trigger] bs[i])
}

proof fn lemma_blocks_free_push(bs: Seq<BlockView>, b: BlockView)
    requires
        blocks_free(bs),
        block_free(b),
    ensures
        blocks_free(bs.push(b)),
{
    assert forall|i: int| 0 <= i < bs.push(b).len() implies block_free(#[trigger] bs.push(b)[i]) by {
        if i < bs.len() {
            assert(bs.push(b)[i] == bs[i]);
        }
    }
}

proof fn lemma_blocks_free_concat(a: Seq<BlockView>, b: Seq<BlockView>)
    requires
        blocks_free(a),
        blocks_free(b),
    ensures
        blocks_free(a + b),
{
    assert forall|i: int| 0 <= i < (a + b).len() implies block_free(#[trigger] (a + b)[i]) by {
        if i < a.len() {
            assert((a + b)[i] == a[i]);
        } else {
            assert((a + b)[i] == b[i - a.len()]);
        }
    }
}

proof fn lemma_spans_free_push(sp: Seq<SpanView>, x: SpanView)
    requires
        spans_free(sp),
        no_char(x.text, '\n'),
    ensures
        spans_free(sp.push(x)),
{
    assert forall|i: int| 0 <= i < sp.push(x).len() implies no_char(#[trigger] sp.push(x)[i].text, '\n') by {
        if i < sp.len() {
            assert(sp.push(x)[i] == sp[i]);
        }
    }
}

/// The pieces of a split hold no separator, and no character the text lacks.
pub proof fn lemma_split_pieces(s: Seq<char>, c: char, d: char)
    ensures
        forall|k: int| 0 <= k < split_on(s, c).len() ==> no_char(#[trigger] split_on(s, c)[k], c),
        no_char(s, d) ==> forall|k: int|
            0 <= k < split_on(s, c).len() ==> no_char(#[trigger] split_on(s, c)[k], d),
    decreases s.len(),
{
    crate::text::lemma_split_nonempty(s, c);
    if s.len() > 0 {
        let p = s.drop_last();
        crate::text::lemma_split_nonempty(p, c);
        lemma_split_pieces(p, c, d);
        let prev = split_on(p, c);
        let r = split_on(s, c);
        if no_char(s, d) {
            assert(no_char(p, d)) by {
                assert forall|i: int| 0 <= i < p.len() implies #[trigger] p[i] != d by {
                    assert(p[i] == s[i]);
                }
            }
        }
        if s.last() != c {
            let l = prev.last().push(s.last());
            assert forall|k: int| 0 <= k < r.len() implies no_char(#[trigger] r[k], c) by {
                if k < prev.len() - 1 {
                    assert(r[k] == prev[k]);
                } else {
                    assert(r[k] == l);
                    assert(no_char(prev[prev.len() - 1], c));
                    assert forall|i: int| 0 <= i < l.len() implies #[trigger] l[i] != c by {
                        if i < l.len() - 1 {
                            assert(l[i] == prev.last()[i]);
                        }
                    }
                }
            }
            if no_char(s, d) {
                assert(s[s.len() - 1] != d);
                assert forall|k: int| 0 <= k < r.len() implies no_char(#[trigger] r[k], d) by {
                    if k < prev.len() - 1 {
                        assert(r[k] == prev[k]);
                    } else {
                        assert(r[k] == l);
                        assert(no_char(prev[prev.len() - 1], d));
                        assert forall|i: int| 0 <= i < l.len() implies #[trigger] l[i] != d by {
                            if i < l.len() - 1 {
                                assert(l[i] == prev.last()[i]);
                            }
                        }
                    }
                }
            }
        } else {
            assert forall|k: int| 0 <= k < r.len() implies no_char(#[trigger] r[k], c) by {
                if k < prev.len() {
                    assert(r[k] == prev[k]);
                }
            }
            assert forall|k: int| 0 <= k < r.len() && no_char(s, d) implies no_char(#[trigger] r[k], d) by {
                if k < prev.len() {
                    assert(r[k] == prev[k]);
                }
            }
        }
    }
}

pub open spec fn state_free(st: EventState) -> bool {
    blocks_free(st.blocks) && spans_free(st.spans)
}

proof fn lemma_close_line_free(st: EventState)
    requires
        state_free(st),
    ensures
        state_free(close_line(st)),
{
    if st.spans.len() > 0 {
        lemma_blocks_free_push(st.blocks, BlockView::Line { spans: st.spans, alignment: Alignment::Left });
    }
}

proof fn lemma_text_pieces_free(st: EventState, pieces: Seq<Seq<char>>, f: SpanFormat)
    requires
        state_free(st),
        forall|k: int| 0 <= k < pieces.len() ==> no_char(#[trigger] pieces[k], '\n'),
    ensures
        state_free(text_pieces(st, pieces, f)),
    decreases pieces.len(),
{
    if pieces.len() > 0 {
        let d = pieces.drop_last();
        assert forall|k: int| 0 <= k < d.len() implies no_char(#[trigger] d[k], '\n') by {
            assert(d[k] == pieces[k]);
        }
        lemma_text_pieces_free(st, d, f);
        let p = text_pieces(st, d, f);
        lemma_close_line_free(p);
        let q = if pieces.len() > 1 {
            close_line(p)
        } else {
            p
        };
        assert(no_char(pieces[pieces.len() - 1], '\n'));
        lemma_spans_free_push(q.spans, span_of(pieces.last(), f));
    }
}

proof fn lemma_events_free(evs: Seq<MdEventView>)
    ensures
        state_free(events_fold(evs)),
    decreases evs.len(),
{
    if evs.len() > 0 {
        lemma_events_free(evs.drop_last());
        let st = events_fold(evs.drop_last());
        match evs.last() {
            MdEventView::HeadingEnd => {
                if st.spans.len() > 0 {
                    lemma_blocks_free_push(st.blocks, BlockView::Heading { spans: st.spans });
                }
            },
            MdEventView::ParagraphEnd => lemma_close_line_free(st),
            MdEventView::HardBreak => lemma_close_line_free(st),
            MdEventView::Text(t) => {
                lemma_split_pieces(t, '\n', '\n');
                lemma_text_pieces_free(
                    st,
                    split_on(t, '\n'),
                    SpanFormat {
                        bold: st.bold || st.in_heading,
                        underline: st.emphasis,
                        double_size: st.in_heading,
                    },
                );
            },
            MdEventView::SoftBreak => {
                lemma_spans_free_push(st.spans, span_of(seq![' '], plain_format()));
            },
            MdEventView::Rule => lemma_blocks_free_push(st.blocks, BlockView::Divider),
            _ => {},
        }
    } else {
        assert(blocks_free(Seq::<BlockView>::empty()));
    }
}

proof fn lemma_sub_free(s: Seq<char>, a: int, b: int)
    requires
        no_char(s, '\n'),
        0 <= a <= b <= s.len(),
    ensures
        no_char(s.subrange(a, b), '\n'),
{
    assert forall|i: int| 0 <= i < b - a implies #[trigger] s.subrange(a, b)[i] != '\n' by {
        assert(s.subrange(a, b)[i] == s[a + i]);
    }
}

proof fn lemma_scan_free(s: Seq<char>, start: int, pos: int)
    requires
        no_char(s, '\n'),
        0 <= start,
    ensures
        spans_free(scan(s, start, pos)),
    decreases s.len() + 1 - pos,
{
    if pos < 0 || start < 0 || start > pos || pos >= s.len() {
        if start < s.len() {
            lemma_sub_free(s, start, s.len() as int);
            let r = plain_run(s, start, s.len() as int);
            assert forall|i: int| 0 <= i < r.len() implies no_char(#[trigger] r[i].text, '\n') by {
                assert(i == 0);
            }
        }
    } else if !is_marker(s[pos]) {
        lemma_scan_free(s, start, pos + 1);
    } else {
        let n = delim_len(s, pos);
        let d = s.subrange(pos, pos + n);
        lemma_find_from_bounds(s, pos + n, d);
        lemma_sub_free(s, start, pos);
        match find_from(s, pos + n, d) {
            Some(end) => {
                if pos < end + n <= s.len() {
                    lemma_scan_free(s, end + n, end + n);
                    lemma_sub_free(s, pos + n, end);
                    let inner = s.subrange(pos + n, end);
                    let emitted = if inner.len() > 0 {
                        seq![span_of(inner, delim_format(n))]
                    } else {
                        Seq::<SpanView>::empty()
                    };
                    let a = plain_run(s, start, pos);
                    let rest = scan(s, end + n, end + n);
                    let all = a + emitted + rest;
                    assert forall|i: int| 0 <= i < all.len() implies no_char(#[trigger] all[i].text, '\n') by {
                        if i < a.len() {
                            assert(all[i] == a[i]);
                            assert(a[i].text == s.subrange(start, pos));
                        } else if i < a.len() + emitted.len() {
                            assert(all[i] == emitted[i - a.len()]);
                        } else {
                            assert(all[i] == rest[i - a.len() - emitted.len()]);
                        }
                    }
                }
            },
            None => {
                lemma_sub_free(s, pos, s.len() as int);
                let a = plain_run(s, start, pos);
                let all = a + seq![span_of(s.subrange(pos, s.len() as int), plain_format())];
                assert forall|i: int| 0 <= i < all.len() implies no_char(#[trigger] all[i].text, '\n') by {
                    if i < a.len() {
                        assert(all[i] == a[i]);
                        assert(a[i].text == s.subrange(start, pos));
                    }
                }
            },
        }
    }
}

proof fn lemma_trim_free(s: Seq<char>)
    requires
        no_char(s, '\n'),
    ensures
        no_char(trim(s), '\n'),
{
    let a = crate::text::first_non_ws(s, 0);
    let b = crate::text::end_non_ws(s, s.len() as int);
    if a < b {
        lemma_first_non_ws_bound(s, 0);
        lemma_end_non_ws_bound(s, s.len() as int);
        lemma_sub_free(s, a, b);
    }
}

proof fn lemma_first_non_ws_bound(s: Seq<char>, i: int)
    ensures
        0 <= i ==> i <= crate::text::first_non_ws(s, i) <= s.len() || i > s.len(),
        0 <= crate::text::first_non_ws(s, i) <= s.len(),
    decreases s.len() - i,
{
    if !(i >= s.len() || i < 0) && crate::text::is_ws(s[i]) {
        lemma_first_non_ws_bound(s, i + 1);
    }
}

proof fn lemma_end_non_ws_bound(s: Seq<char>, j: int)
    ensures
        0 <= crate::text::end_non_ws(s, j) <= s.len(),
    decreases j,
{
    if !(j <= 0 || j > s.len()) && crate::text::is_ws(s[j - 1]) {
        lemma_end_non_ws_bound(s, j - 1);
    }
}

proof fn lemma_columns_free(t: Seq<char>)
    requires
        no_char(t, '\n'),
    ensures
        block_free(BlockView::Columns { cells: column_cells(t) }),
{
    lemma_split_pieces(t, '|', '\n');
    let ps = split_on(t, '|');
    let cells = column_cells(t);
    assert forall|i: int| 0 <= i < cells.len() implies spans_free(#[trigger] cells[i]) by {
        assert(cells[i] == inline_spans(trim(ps[i])));
        assert(no_char(ps[i], '\n'));
        lemma_trim_free(ps[i]);
        let x = trim(ps[i]);
        lemma_scan_free(x, 0, 0);
        if scan(x, 0, 0).len() == 0 && x.len() > 0 {
            lemma_spans_free_push(Seq::empty(), span_of(x, plain_format()));
            assert(seq![span_of(x, plain_format())] =~= Seq::<SpanView>::empty().push(span_of(x, plain_format())));
        }
    }
}

proof fn lemma_flush_free(bs: Seq<BlockView>, buf: Seq<char>)
    requires
        blocks_free(bs),
    ensures
        blocks_free(flush_spec(bs, buf)),
{
    if buf.len() > 0 {
        let evs = markdown_events(buf);
        lemma_events_free(evs);
        lemma_close_line_free(events_fold(evs));
        lemma_blocks_free_concat(bs, events_blocks(evs));
    }
}

proof fn lemma_lines_fold_free(ls: Seq<Seq<char>>)
    requires
        forall|k: int| 0 <= k < ls.len() ==> no_char(#[trigger] ls[k], '\n'),
    ensures
        blocks_free(lines_fold(ls).blocks),
    decreases ls.len(),
{
    if ls.len() > 0 {
        let d = ls.drop_last();
        assert forall|k: int| 0 <= k < d.len() implies no_char(#[trigger] d[k], '\n') by {
            assert(d[k] == ls[k]);
        }
        lemma_lines_fold_free(d);
        let st = lines_fold(d);
        let line = ls.last();
        assert(no_char(ls[ls.len() - 1], '\n'));
        lemma_flush_free(st.blocks, st.buf);
        let t = trim(line);
        if t.len() == 0 {
            lemma_blocks_free_push(flush_spec(st.blocks, st.buf), BlockView::BlankLine);
        } else if is_column_text(t) {
            lemma_trim_free(line);
            lemma_columns_free(t);
            lemma_blocks_free_push(flush_spec(st.blocks, st.buf), BlockView::Columns { cells: column_cells(t) });
        }
    } else {
        assert(blocks_free(Seq::<BlockView>::empty()));
    }
}

/// No span of a parsed document holds a newline.
pub proof fn lemma_parsed_spans_have_no_newline(input: Seq<char>)
    ensures
        blocks_free(parse_spec(input)),
{
    let p = split_on(input, '\n');
    lemma_split_pieces(input, '\n', '\n');
    crate::text::lemma_split_nonempty(input, '\n');
    let q = if p.last().len() == 0 {
        p.drop_last()
    } else {
        p
    };
    let ls = lines_of(input);
    assert forall|k: int| 0 <= k < ls.len() implies no_char(#[trigger] ls[k], '\n') by {
        assert(ls[k] == crate::text::strip_cr(q[k]));
        assert(q[k] == p[k]);
        assert(no_char(p[k], '\n'));
        let l = q[k];
        if l.len() > 0 && l.last() == '\r' {
            lemma_sub_free(l, 0, l.len() - 1);
            assert(l.drop_last() =~= l.subrange(0, l.len() - 1));
        }
    }
    lemma_lines_fold_free(ls);
    let st = lines_fold(ls);
    lemma_flush_free(st.blocks, st.buf);
}
} // verus!
