//! Compiling wrapped lines into an abstract printer command stream.
use vstd::prelude::*;
use crate::markdown::{
    blocks_view, plain_format, spans_view, Alignment, ReceiptBlock, SpanFormat, SpanView,
};
use crate::word_wrap::{document_lines, lines_view, wrap_document, LineView, WrappedLine};

verus! {

/// A pure representation of one printer command.
#[derive(Debug, Clone, PartialEq, Eq)]
pub enum PrintCommand {
    SetBold(bool),
    SetUnderline(bool),
    SetDoubleSize(bool),
    SetAlignment(Alignment),
    Write(String),
    Feed,
}

pub enum CommandView {
    SetBold(bool),
    SetUnderline(bool),
    SetDoubleSize(bool),
    SetAlignment(Alignment),
    Write(Seq<char>),
    Feed,
}

impl View for PrintCommand {
    type V = CommandView;

    open spec fn view(&self) -> CommandView {
        match self {
            PrintCommand::SetBold(b) => CommandView::SetBold(*b),
            PrintCommand::SetUnderline(b) => CommandView::SetUnderline(*b),
            PrintCommand::SetDoubleSize(b) => CommandView::SetDoubleSize(*b),
            PrintCommand::SetAlignment(a) => CommandView::SetAlignment(*a),
            PrintCommand::Write(t) => CommandView::Write(t@),
            PrintCommand::Feed => CommandView::Feed,
        }
    }
}

pub open spec fn commands_view(c: Seq<PrintCommand>) -> Seq<CommandView> {
    c.map_values(|x: PrintCommand| x@)
}

/// The commands for one span, given the format in force before it: a `Set*`
/// for each flag that differs, then the text if it is not empty.
pub open spec fn span_commands(cur: SpanFormat, sp: SpanView) -> Seq<CommandView> {
    let f = sp.format;
    (if f.bold != cur.bold {
        seq![CommandView::SetBold(f.bold)]
    } else {
        Seq::empty()
    }) + (if f.underline != cur.underline {
        seq![CommandView::SetUnderline(f.underline)]
    } else {
        Seq::empty()
    }) + (if f.double_size != cur.double_size {
        seq![CommandView::SetDoubleSize(f.double_size)]
    } else {
        Seq::empty()
    }) + (if sp.text.len() > 0 {
        seq![CommandView::Write(sp.text)]
    } else {
        Seq::empty()
    })
}

/// The commands of a line's spans, from the plain format on.
pub open spec fn spans_commands(sps: Seq<SpanView>) -> Seq<CommandView>
    decreases sps.len(),
{
    if sps.len() == 0 {
        Seq::empty()
    } else {
        spans_commands(sps.drop_last()) + span_commands(
            format_after(sps.drop_last()),
            sps.last(),
        )
    }
}

/// The format in force after a line's spans.
pub open spec fn format_after(sps: Seq<SpanView>) -> SpanFormat {
    if sps.len() == 0 {
        plain_format()
    } else {
        sps.last().format
    }
}

/// Turns off whatever is still on, so that no format crosses a line feed.
pub open spec fn closing_commands(f: SpanFormat) -> Seq<CommandView> {
    (if f.bold {
        seq![CommandView::SetBold(false)]
    } else {
        Seq::empty()
    }) + (if f.underline {
        seq![CommandView::SetUnderline(false)]
    } else {
        Seq::empty()
    }) + (if f.double_size {
        seq![CommandView::SetDoubleSize(false)]
    } else {
        Seq::empty()
    })
}

/// A line's commands without its alignment change.
pub open spec fn line_body(l: LineView) -> Seq<CommandView> {
    spans_commands(l.spans) + closing_commands(format_after(l.spans)) + seq![CommandView::Feed]
}

/// A line's commands, given the alignment in force before it.
pub open spec fn line_commands(cur: Alignment, l: LineView) -> Seq<CommandView> {
    (if l.alignment != cur {
        seq![CommandView::SetAlignment(l.alignment)]
    } else {
        Seq::empty()
    }) + line_body(l)
}

/// The alignment in force after some lines.
pub open spec fn alignment_after(ls: Seq<LineView>) -> Alignment {
    if ls.len() == 0 {
        Alignment::Left
    } else {
        ls.last().alignment
    }
}

pub open spec fn lines_commands(ls: Seq<LineView>) -> Seq<CommandView>
    decreases ls.len(),
{
    if ls.len() == 0 {
        Seq::empty()
    } else {
        lines_commands(ls.drop_last()) + line_commands(alignment_after(ls.drop_last()), ls.last())
    }
}

/// The whole stream: every line, then back to left alignment if needed.
pub open spec fn compile_spec(ls: Seq<LineView>) -> Seq<CommandView> {
    lines_commands(ls) + (if alignment_after(ls) != Alignment::Left {
        seq![CommandView::SetAlignment(Alignment::Left)]
    } else {
        Seq::empty()
    })
}

fn push_command(cmds: &mut Vec<PrintCommand>, c: PrintCommand)
    ensures
        commands_view(final(cmds)@) == commands_view(old(cmds)@).push(c@),
{
    cmds.push(c);
    assert(commands_view(cmds@) =~= commands_view(old(cmds)@).push(c@));
}

/// Emits the commands of one span and tracks the format it leaves in force.
fn emit_span(commands: &mut Vec<PrintCommand>, state: &mut SpanFormat, span: &crate::markdown::ReceiptSpan)
    ensures
        commands_view(final(commands)@) == commands_view(old(commands)@) + span_commands(
            *old(state),
            span@,
        ),
        *final(state) == span.format,
{
    let ghost before = commands_view(commands@);
    let ghost cur = *state;
    if span.format.bold != state.bold {
        push_command(commands, PrintCommand::SetBold(span.format.bold));
    }
    if span.format.underline != state.underline {
        push_command(commands, PrintCommand::SetUnderline(span.format.underline));
    }
    if span.format.double_size != state.double_size {
        push_command(commands, PrintCommand::SetDoubleSize(span.format.double_size));
    }
    if span.text.as_str().unicode_len() > 0 {
        push_command(commands, PrintCommand::Write(span.text.clone()));
    }
    *state = span.format;
    assert(commands_view(commands@) =~= before + span_commands(cur, span@));
}

/// Emits the commands of one line and tracks the alignment in force.
fn emit_line(commands: &mut Vec<PrintCommand>, current_alignment: &mut Alignment, line: &WrappedLine)
    ensures
        commands_view(final(commands)@) == commands_view(old(commands)@) + line_commands(
            *old(current_alignment),
            line@,
        ),
        *final(current_alignment) == line.alignment,
{
    let ghost start = commands_view(commands@);
    if line.alignment != *current_alignment {
        push_command(commands, PrintCommand::SetAlignment(line.alignment));
        *current_alignment = line.alignment;
    }
    let ghost after_align = commands_view(commands@);
    let mut state = SpanFormat { bold: false, underline: false, double_size: false };
    let ghost sv = spans_view(line.spans@);
    let mut j: usize = 0;
    assert(sv.subrange(0, 0) =~= Seq::<SpanView>::empty());
    assert(after_align + spans_commands(Seq::<SpanView>::empty()) =~= after_align);
    while j < line.spans.len()
        invariant
            j <= line.spans@.len(),
            sv == spans_view(line.spans@),
            commands_view(commands@) == after_align + spans_commands(sv.subrange(0, j as int)),
            state == format_after(sv.subrange(0, j as int)),
        decreases line.spans.len() - j,
    {
        let ghost before = commands_view(commands@);
        assert(sv.subrange(0, j + 1).drop_last() =~= sv.subrange(0, j as int));
        assert(sv.subrange(0, j + 1).last() == line.spans@[j as int]@);
        emit_span(commands, &mut state, &line.spans[j]);
        assert(commands_view(commands@) =~= after_align + spans_commands(sv.subrange(0, j + 1)));
        j = j + 1;
    }
    assert(sv.subrange(0, sv.len() as int) =~= sv);
    let ghost body_start = commands_view(commands@);
    if state.bold {
        push_command(commands, PrintCommand::SetBold(false));
    }
    if state.underline {
        push_command(commands, PrintCommand::SetUnderline(false));
    }
    if state.double_size {
        push_command(commands, PrintCommand::SetDoubleSize(false));
    }
    push_command(commands, PrintCommand::Feed);
    assert(commands_view(commands@) =~= body_start + closing_commands(format_after(sv)) + seq![
        CommandView::Feed,
    ]);
    assert(commands_view(commands@) =~= start + line_commands(*old(current_alignment), line@));
}

/// Generates print commands from pre-wrapped lines.
pub fn generate_commands_from_lines(lines: &[WrappedLine]) -> (r: Vec<PrintCommand>)
    ensures
        commands_view(r@) == compile_spec(lines_view(lines@)),
{
    let ghost ls = lines_view(lines@);
    let mut commands: Vec<PrintCommand> = Vec::new();
    let mut current_alignment = Alignment::Left;
    let mut i: usize = 0;
    assert(ls.subrange(0, 0) =~= Seq::<LineView>::empty());
    assert(commands_view(commands@) =~= Seq::<CommandView>::empty());
    while i < lines.len()
        invariant
            i <= lines@.len(),
            ls == lines_view(lines@),
            commands_view(commands@) == lines_commands(ls.subrange(0, i as int)),
            current_alignment == alignment_after(ls.subrange(0, i as int)),
        decreases lines.len() - i,
    {
        assert(ls.subrange(0, i + 1).drop_last() =~= ls.subrange(0, i as int));
        assert(ls.subrange(0, i + 1).last() == lines@[i as int]@);
        emit_line(&mut commands, &mut current_alignment, &lines[i]);
        i = i + 1;
    }
    assert(ls.subrange(0, ls.len() as int) =~= ls);
    if current_alignment != Alignment::Left {
        push_command(&mut commands, PrintCommand::SetAlignment(Alignment::Left));
    }
    assert(commands_view(commands@) =~= compile_spec(ls));
    commands
}

/// Generates the print commands of receipt blocks wrapped at `max_chars`.
pub fn generate_commands(blocks: &[ReceiptBlock], max_chars: u8) -> (r: Vec<PrintCommand>)
    ensures
        commands_view(r@) == compile_spec(document_lines(blocks_view(blocks@), max_chars as int)),
{
    let lines = wrap_document(blocks, max_chars);
    generate_commands_from_lines(lines.as_slice())
}

/// How many commands turn bold on.
pub open spec fn bold_on_count(c: Seq<CommandView>) -> nat
    decreases c.len(),
{
    if c.len() == 0 {
        0
    } else {
        bold_on_count(c.drop_last()) + if c.last() == CommandView::SetBold(true) {
            1nat
        } else {
            0nat
        }
    }
}

proof fn lemma_bold_count_concat(a: Seq<CommandView>, b: Seq<CommandView>)
    ensures
        bold_on_count(a + b) == bold_on_count(a) + bold_on_count(b),
    decreases b.len(),
{
    if b.len() == 0 {
        assert(a + b =~= a);
    } else {
        assert((a + b).drop_last() =~= a + b.drop_last());
        lemma_bold_count_concat(a, b.drop_last());
    }
}

proof fn lemma_bold_count_one(c: CommandView)
    ensures
        bold_on_count(seq![c]) == if c == CommandView::SetBold(true) {
            1nat
        } else {
            0nat
        },
{
    assert(seq![c].drop_last() =~= Seq::<CommandView>::empty());
    assert(bold_on_count(Seq::<CommandView>::empty()) == 0);
    assert(seq![c].last() == c);
}

proof fn lemma_bold_count_zero(c: Seq<CommandView>)
    requires
        forall|i: int| 0 <= i < c.len() ==> c[i] != CommandView::SetBold(true),
    ensures
        bold_on_count(c) == 0,
    decreases c.len(),
{
    if c.len() > 0 {
        lemma_bold_count_zero(c.drop_last());
    }
}

/// Two adjacent spans of one bold format turn bold on exactly once.
#[verifier::rlimit(50)]
pub proof fn lemma_bold_set_once(a: SpanView, b: SpanView, al: Alignment)
    requires
        a.format == b.format,
        a.format.bold,
    ensures
        bold_on_count(compile_spec(seq![LineView { spans: seq![a, b], alignment: al }])) == 1,
{
    let l = LineView { spans: seq![a, b], alignment: al };
    let ls = seq![l];
    assert(ls.drop_last() =~= Seq::<LineView>::empty());
    assert(seq![a, b].drop_last() =~= seq![a]);
    assert(seq![a].drop_last() =~= Seq::<SpanView>::empty());
    assert(spans_commands(Seq::<SpanView>::empty()) =~= Seq::<CommandView>::empty());
    assert(seq![a].last() == a);
    assert(seq![a, b].last() == b);
    let sa = span_commands(plain_format(), a);
    let sb = span_commands(a.format, b);
    assert(spans_commands(seq![a]) =~= sa);
    assert(spans_commands(seq![a, b]) =~= sa + sb);
    let rest = sa.drop_first();
    assert(sa[0] == CommandView::SetBold(true));
    assert(sa =~= seq![CommandView::SetBold(true)] + rest);
    lemma_bold_count_zero(rest);
    lemma_bold_count_zero(sb);
    lemma_bold_count_one(CommandView::SetBold(true));
    lemma_bold_count_concat(seq![CommandView::SetBold(true)], rest);
    let align: Seq<CommandView> = if al != Alignment::Left {
        seq![CommandView::SetAlignment(al)]
    } else {
        Seq::empty()
    };
    let tail: Seq<CommandView> = if al != Alignment::Left {
        seq![CommandView::SetAlignment(Alignment::Left)]
    } else {
        Seq::empty()
    };
    let close = closing_commands(b.format) + seq![CommandView::Feed];
    assert(lines_commands(Seq::<LineView>::empty()) =~= Seq::<CommandView>::empty());
    assert(ls.last() == l);
    let pre = align + sa;
    let all = compile_spec(ls);
    assert(all =~= align + sa + sb + close + tail);
    lemma_bold_count_zero(align);
    lemma_bold_count_zero(close);
    lemma_bold_count_zero(tail);
    lemma_bold_count_concat(align, sa);
    lemma_bold_count_concat(align + sa, sb);
    lemma_bold_count_concat(align + sa + sb, close);
    lemma_bold_count_concat(align + sa + sb + close, tail);
}

/// A centered line after left-aligned output is preceded by one switch to
/// center, ahead of all its writes, and the stream then ends back at left.
pub proof fn lemma_center_after_left(ls: Seq<LineView>, l: LineView)
    requires
        alignment_after(ls) == Alignment::Left,
        l.alignment == Alignment::Center,
    ensures
        compile_spec(ls.push(l)) == lines_commands(ls) + seq![
            CommandView::SetAlignment(Alignment::Center),
        ] + line_body(l) + seq![CommandView::SetAlignment(Alignment::Left)],
{
    assert(ls.push(l).drop_last() =~= ls);
    assert(compile_spec(ls.push(l)) =~= lines_commands(ls) + seq![
        CommandView::SetAlignment(Alignment::Center),
    ] + line_body(l) + seq![CommandView::SetAlignment(Alignment::Left)]);
}


// ---------------------------------------------------------------------------
// Format state as the printer sees it
/// One command as the printer's format state sees it: `None` once a command
/// sets a flag to the value it already has, or a feed comes while a flag is on.
pub open spec fn replay_step(st: Option<SpanFormat>, c: CommandView) -> Option<SpanFormat> {
    match st {
        None => None,
        Some(f) => match c {
            CommandView::SetBold(v) => if v != f.bold {
                Some(SpanFormat { bold: v, ..f })
            } else {
                None
            },
            CommandView::SetUnderline(v) => if v != f.underline {
                Some(SpanFormat { underline: v, ..f })
            } else {
                None
            },
            CommandView::SetDoubleSize(v) => if v != f.double_size {
                Some(SpanFormat { double_size: v, ..f })
            } else {
                None
            },
            CommandView::Feed => if f == plain_format() {
                Some(f)
            } else {
                None
            },
            _ => Some(f),
        },
    }
}

pub open spec fn replay(st: Option<SpanFormat>, cmds: Seq<CommandView>) -> Option<SpanFormat>
    decreases cmds.len(),
{
    if cmds.len() == 0 {
        st
    } else {
        replay_step(replay(st, cmds.drop_last()), cmds.last())
    }
}

proof fn lemma_replay_concat(st: Option<SpanFormat>, a: Seq<CommandView>, b: Seq<CommandView>)
    ensures
        replay(st, a + b) == replay(replay(st, a), b),
    decreases b.len(),
{
    if b.len() == 0 {
        assert(a + b =~= a);
    } else {
        assert((a + b).drop_last() =~= a + b.drop_last());
        lemma_replay_concat(st, a, b.drop_last());
    }
}

proof fn lemma_replay_one(st: Option<SpanFormat>, c: CommandView)
    ensures
        replay(st, seq![c]) == replay_step(st, c),
{
    assert(seq![c].drop_last() =~= Seq::<CommandView>::empty());
    assert(replay(st, Seq::<CommandView>::empty()) == st);
    assert(seq![c].last() == c);
}

proof fn lemma_replay_opt(st: Option<SpanFormat>, cond: bool, c: CommandView)
    ensures
        replay(st, if cond { seq![c] } else { Seq::<CommandView>::empty() }) == if cond {
            replay_step(st, c)
        } else {
            st
        },
{
    lemma_replay_one(st, c);
}

proof fn lemma_span_replay(cur: SpanFormat, sp: SpanView)
    ensures
        replay(Some(cur), span_commands(cur, sp)) == Some(sp.format),
{
    let f = sp.format;
    let pb: Seq<CommandView> = if f.bold != cur.bold { seq![CommandView::SetBold(f.bold)] } else { Seq::empty() };
    let pu: Seq<CommandView> = if f.underline != cur.underline { seq![CommandView::SetUnderline(f.underline)] } else { Seq::empty() };
    let pd: Seq<CommandView> = if f.double_size != cur.double_size { seq![CommandView::SetDoubleSize(f.double_size)] } else { Seq::empty() };
    let pw: Seq<CommandView> = if sp.text.len() > 0 { seq![CommandView::Write(sp.text)] } else { Seq::empty() };
    assert(span_commands(cur, sp) == pb + pu + pd + pw);
    lemma_replay_concat(Some(cur), pb + pu + pd, pw);
    lemma_replay_concat(Some(cur), pb + pu, pd);
    lemma_replay_concat(Some(cur), pb, pu);
    lemma_replay_opt(Some(cur), f.bold != cur.bold, CommandView::SetBold(f.bold));
    let s1 = SpanFormat { bold: f.bold, ..cur };
    lemma_replay_opt(Some(s1), f.underline != cur.underline, CommandView::SetUnderline(f.underline));
    let s2 = SpanFormat { underline: f.underline, ..s1 };
    lemma_replay_opt(Some(s2), f.double_size != cur.double_size, CommandView::SetDoubleSize(f.double_size));
    let s3 = SpanFormat { double_size: f.double_size, ..s2 };
    assert(s3 == f);
    lemma_replay_opt(Some(f), sp.text.len() > 0, CommandView::Write(sp.text));
}

proof fn lemma_spans_replay(sps: Seq<SpanView>)
    ensures
        replay(Some(plain_format()), spans_commands(sps)) == Some(format_after(sps)),
    decreases sps.len(),
{
    if sps.len() > 0 {
        lemma_spans_replay(sps.drop_last());
        lemma_replay_concat(
            Some(plain_format()),
            spans_commands(sps.drop_last()),
            span_commands(format_after(sps.drop_last()), sps.last()),
        );
        lemma_span_replay(format_after(sps.drop_last()), sps.last());
    }
}

proof fn lemma_line_replay(cur: Alignment, l: LineView)
    ensures
        replay(Some(plain_format()), line_commands(cur, l)) == Some(plain_format()),
{
    let f = format_after(l.spans);
    let a: Seq<CommandView> = if l.alignment != cur { seq![CommandView::SetAlignment(l.alignment)] } else { Seq::empty() };
    let cb: Seq<CommandView> = if f.bold { seq![CommandView::SetBold(false)] } else { Seq::empty() };
    let cu: Seq<CommandView> = if f.underline { seq![CommandView::SetUnderline(false)] } else { Seq::empty() };
    let cd: Seq<CommandView> = if f.double_size { seq![CommandView::SetDoubleSize(false)] } else { Seq::empty() };
    let sc = spans_commands(l.spans);
    let feed = seq![CommandView::Feed];
    assert(line_commands(cur, l) =~= a + sc + cb + cu + cd + feed);
    lemma_replay_opt(Some(plain_format()), l.alignment != cur, CommandView::SetAlignment(l.alignment));
    lemma_replay_concat(Some(plain_format()), a, sc);
    lemma_spans_replay(l.spans);
    lemma_replay_concat(Some(plain_format()), a + sc, cb);
    lemma_replay_opt(Some(f), f.bold, CommandView::SetBold(false));
    let s1 = SpanFormat { bold: false, ..f };
    lemma_replay_concat(Some(plain_format()), a + sc + cb, cu);
    lemma_replay_opt(Some(s1), f.underline, CommandView::SetUnderline(false));
    let s2 = SpanFormat { underline: false, ..s1 };
    lemma_replay_concat(Some(plain_format()), a + sc + cb + cu, cd);
    lemma_replay_opt(Some(s2), f.double_size, CommandView::SetDoubleSize(false));
    lemma_replay_concat(Some(plain_format()), a + sc + cb + cu + cd, feed);
    lemma_replay_one(Some(plain_format()), CommandView::Feed);
}

/// No command of a compiled stream sets a format flag to the value it
/// already has, and every flag is off at each line feed and at the end.
pub proof fn lemma_no_redundant_format(ls: Seq<LineView>)
    ensures
        replay(Some(plain_format()), compile_spec(ls)) == Some(plain_format()),
    decreases ls.len(),
{
    lemma_lines_replay(ls);
    let tail: Seq<CommandView> = if alignment_after(ls) != Alignment::Left {
        seq![CommandView::SetAlignment(Alignment::Left)]
    } else {
        Seq::empty()
    };
    lemma_replay_concat(Some(plain_format()), lines_commands(ls), tail);
    lemma_replay_opt(Some(plain_format()), alignment_after(ls) != Alignment::Left, CommandView::SetAlignment(Alignment::Left));
}

proof fn lemma_lines_replay(ls: Seq<LineView>)
    ensures
        replay(Some(plain_format()), lines_commands(ls)) == Some(plain_format()),
    decreases ls.len(),
{
    if ls.len() > 0 {
        lemma_lines_replay(ls.drop_last());
        lemma_replay_concat(
            Some(plain_format()),
            lines_commands(ls.drop_last()),
            line_commands(alignment_after(ls.drop_last()), ls.last()),
        );
        lemma_line_replay(alignment_after(ls.drop_last()), ls.last());
    }
}

// ---------------------------------------------------------------------------
// Alignment commands
/// The alignments that a stream's `SetAlignment` commands set, in order.
pub open spec fn alignment_commands(cmds: Seq<CommandView>) -> Seq<Alignment>
    decreases cmds.len(),
{
    if cmds.len() == 0 {
        Seq::empty()
    } else {
        alignment_commands(cmds.drop_last()) + match cmds.last() {
            CommandView::SetAlignment(a) => seq![a],
            _ => Seq::empty(),
        }
    }
}

/// One alignment for each line whose alignment differs from the one before
/// it (left before the first line).
pub open spec fn alignment_changes(ls: Seq<LineView>) -> Seq<Alignment>
    decreases ls.len(),
{
    if ls.len() == 0 {
        Seq::empty()
    } else {
        alignment_changes(ls.drop_last()) + if ls.last().alignment != alignment_after(ls.drop_last()) {
            seq![ls.last().alignment]
        } else {
            Seq::empty()
        }
    }
}

proof fn lemma_align_concat(a: Seq<CommandView>, b: Seq<CommandView>)
    ensures
        alignment_commands(a + b) == alignment_commands(a) + alignment_commands(b),
    decreases b.len(),
{
    if b.len() == 0 {
        assert(a + b =~= a);
        assert(alignment_commands(a) + alignment_commands(b) =~= alignment_commands(a));
    } else {
        assert((a + b).drop_last() =~= a + b.drop_last());
        lemma_align_concat(a, b.drop_last());
        assert(alignment_commands(a) + alignment_commands(b.drop_last()) + alignment_commands(
            seq![b.last()],
        ) =~= alignment_commands(a) + alignment_commands(b)) by {
            lemma_align_one(b.last());
        }
    }
}

proof fn lemma_align_one(c: CommandView)
    ensures
        alignment_commands(seq![c]) == match c {
            CommandView::SetAlignment(a) => seq![a],
            _ => Seq::<Alignment>::empty(),
        },
{
    assert(seq![c].drop_last() =~= Seq::<CommandView>::empty());
    assert(alignment_commands(Seq::<CommandView>::empty()) =~= Seq::<Alignment>::empty());
    assert(seq![c].last() == c);
    assert(Seq::<Alignment>::empty() + match c {
        CommandView::SetAlignment(a) => seq![a],
        _ => Seq::<Alignment>::empty(),
    } =~= match c {
        CommandView::SetAlignment(a) => seq![a],
        _ => Seq::<Alignment>::empty(),
    });
}

proof fn lemma_align_opt(cond: bool, c: CommandView)
    ensures
        alignment_commands(if cond { seq![c] } else { Seq::<CommandView>::empty() }) == if cond {
            match c {
                CommandView::SetAlignment(a) => seq![a],
                _ => Seq::<Alignment>::empty(),
            }
        } else {
            Seq::<Alignment>::empty()
        },
{
    lemma_align_one(c);
    assert(alignment_commands(Seq::<CommandView>::empty()) =~= Seq::<Alignment>::empty());
    assert(Seq::<Alignment>::empty() + match c {
        CommandView::SetAlignment(a) => seq![a],
        _ => Seq::<Alignment>::empty(),
    } =~= match c {
        CommandView::SetAlignment(a) => seq![a],
        _ => Seq::<Alignment>::empty(),
    });
}

proof fn lemma_body_has_no_alignment(l: LineView)
    ensures
        alignment_commands(line_body(l)) == Seq::<Alignment>::empty(),
{
    lemma_spans_no_alignment(l.spans);
    let f = format_after(l.spans);
    let cb: Seq<CommandView> = if f.bold { seq![CommandView::SetBold(false)] } else { Seq::empty() };
    let cu: Seq<CommandView> = if f.underline { seq![CommandView::SetUnderline(false)] } else { Seq::empty() };
    let cd: Seq<CommandView> = if f.double_size { seq![CommandView::SetDoubleSize(false)] } else { Seq::empty() };
    let sc = spans_commands(l.spans);
    let feed = seq![CommandView::Feed];
    assert(line_body(l) =~= sc + cb + cu + cd + feed);
    lemma_align_concat(sc + cb + cu + cd, feed);
    lemma_align_concat(sc + cb + cu, cd);
    lemma_align_concat(sc + cb, cu);
    lemma_align_concat(sc, cb);
    lemma_align_opt(f.bold, CommandView::SetBold(false));
    lemma_align_opt(f.underline, CommandView::SetUnderline(false));
    lemma_align_opt(f.double_size, CommandView::SetDoubleSize(false));
    lemma_align_opt(true, CommandView::Feed);
    assert(Seq::<Alignment>::empty() + Seq::<Alignment>::empty() =~= Seq::<Alignment>::empty());
}

proof fn lemma_spans_no_alignment(sps: Seq<SpanView>)
    ensures
        alignment_commands(spans_commands(sps)) == Seq::<Alignment>::empty(),
    decreases sps.len(),
{
    if sps.len() > 0 {
        lemma_spans_no_alignment(sps.drop_last());
        let cur = format_after(sps.drop_last());
        let sp = sps.last();
        let f = sp.format;
        let pb: Seq<CommandView> = if f.bold != cur.bold { seq![CommandView::SetBold(f.bold)] } else { Seq::empty() };
        let pu: Seq<CommandView> = if f.underline != cur.underline { seq![CommandView::SetUnderline(f.underline)] } else { Seq::empty() };
        let pd: Seq<CommandView> = if f.double_size != cur.double_size { seq![CommandView::SetDoubleSize(f.double_size)] } else { Seq::empty() };
        let pw: Seq<CommandView> = if sp.text.len() > 0 { seq![CommandView::Write(sp.text)] } else { Seq::empty() };
        assert(span_commands(cur, sp) == pb + pu + pd + pw);
        lemma_align_concat(spans_commands(sps.drop_last()), span_commands(cur, sp));
        lemma_align_concat(pb + pu + pd, pw);
        lemma_align_concat(pb + pu, pd);
        lemma_align_concat(pb, pu);
        lemma_align_opt(f.bold != cur.bold, CommandView::SetBold(f.bold));
        lemma_align_opt(f.underline != cur.underline, CommandView::SetUnderline(f.underline));
        lemma_align_opt(f.double_size != cur.double_size, CommandView::SetDoubleSize(f.double_size));
        lemma_align_opt(sp.text.len() > 0, CommandView::Write(sp.text));
        assert(Seq::<Alignment>::empty() + Seq::<Alignment>::empty() =~= Seq::<Alignment>::empty());
    }
}

proof fn lemma_lines_alignments(ls: Seq<LineView>)
    ensures
        alignment_commands(lines_commands(ls)) == alignment_changes(ls),
    decreases ls.len(),
{
    if ls.len() > 0 {
        let p = ls.drop_last();
        let l = ls.last();
        let a: Seq<CommandView> = if l.alignment != alignment_after(p) {
            seq![CommandView::SetAlignment(l.alignment)]
        } else {
            Seq::empty()
        };
        lemma_lines_alignments(p);
        lemma_align_concat(lines_commands(p), a + line_body(l));
        lemma_align_concat(a, line_body(l));
        lemma_body_has_no_alignment(l);
        lemma_align_opt(l.alignment != alignment_after(p), CommandView::SetAlignment(l.alignment));
        assert(alignment_commands(a) + Seq::<Alignment>::empty() =~= alignment_commands(a));
    } else {
        assert(alignment_commands(Seq::<CommandView>::empty()) =~= Seq::<Alignment>::empty());
    }
}

/// The alignment commands of a compiled stream are exactly one per change of
/// alignment between lines (left before the first), then one back to left if
/// the last line was not left-aligned; each stands right before its line.
pub proof fn lemma_alignment_commands(ls: Seq<LineView>)
    ensures
        alignment_commands(compile_spec(ls)) == alignment_changes(ls) + if alignment_after(ls)
            != Alignment::Left {
            seq![Alignment::Left]
        } else {
            Seq::<Alignment>::empty()
        },
{
    let tail: Seq<CommandView> = if alignment_after(ls) != Alignment::Left {
        seq![CommandView::SetAlignment(Alignment::Left)]
    } else {
        Seq::empty()
    };
    lemma_lines_alignments(ls);
    lemma_align_concat(lines_commands(ls), tail);
    lemma_align_opt(alignment_after(ls) != Alignment::Left, CommandView::SetAlignment(Alignment::Left));
}
} // verus!
