//! Messages queued from the website, and their receipt layout.
use vstd::prelude::*;
use crate::markdown::{
    blocks_view, bold_format, heading_format, plain_format, span_of, spans_view, Alignment,
    BlockView, ReceiptBlock, ReceiptSpan, SpanFormat,
};
use crate::text::{chars_of, lines_chars, lines_of, string_from, trim, trimmed};

verus! {

/// A message fetched from the website.
#[derive(Debug, Clone)]
pub struct ReceiptMessage {
    pub id: i64,
    pub content: String,
    pub sender_name: Option<String>,
    pub sender_ip: Option<String>,
    pub image_url: Option<String>,
    pub status: String,
    pub created_at: String,
}

/// A page of pending messages.
#[derive(Debug, Clone)]
pub struct PendingResponse {
    pub status: String,
    pub messages: Vec<ReceiptMessage>,
}

/// What the website poller reports.
#[derive(Debug, Clone)]
pub enum PollEvent {
    MessagesReceived(Vec<ReceiptMessage>),
    Error(String),
    Connected,
}

/// Where and how often to poll.
#[derive(Debug, Clone)]
pub struct PollerConfig {
    pub base_url: String,
    pub auth_token: String,
    pub poll_interval_secs: u64,
}

/// The sender shown: the name, else the address, else "anonymous".
pub open spec fn sender_of(m: ReceiptMessage) -> Seq<char> {
    match m.sender_name {
        Some(n) => n@,
        None => match m.sender_ip {
            Some(ip) => ip@,
            None => "anonymous"@,
        },
    }
}

/// An ISO timestamp cut to its first 16 characters, `T` shown as a space.
pub open spec fn time_display(iso: Seq<char>) -> Seq<char> {
    let t = if iso.len() >= 16 {
        iso.subrange(0, 16)
    } else {
        iso
    };
    t.map_values(|c: char| if c == 'T' { ' ' } else { c })
}

/// A content line: blank lines stay blank, others become plain left-aligned lines.
pub open spec fn content_block(line: Seq<char>) -> BlockView {
    if trim(line).len() == 0 {
        BlockView::BlankLine
    } else {
        BlockView::Line { spans: seq![span_of(line, plain_format())], alignment: Alignment::Left }
    }
}

/// The receipt layout of a message: a framed heading, sender and time, the
/// content line by line, and a closing divider.
pub open spec fn message_blocks(m: ReceiptMessage) -> Seq<BlockView> {
    seq![
        BlockView::Divider,
        BlockView::Heading { spans: seq![span_of("MESSAGE"@, heading_format())] },
        BlockView::Divider,
        BlockView::BlankLine,
        BlockView::Line {
            spans: seq![span_of("From: "@, bold_format()), span_of(sender_of(m), plain_format())],
            alignment: Alignment::Left,
        },
        BlockView::Line {
            spans: seq![
                span_of("Time: "@, bold_format()),
                span_of(time_display(m.created_at@), plain_format()),
            ],
            alignment: Alignment::Left,
        },
        BlockView::BlankLine,
        BlockView::Divider,
        BlockView::BlankLine,
    ] + lines_of(m.content@).map_values(|l: Seq<char>| content_block(l)) + seq![
        BlockView::BlankLine,
        BlockView::Divider,
    ]
}

fn push_block(blocks: &mut Vec<ReceiptBlock>, b: ReceiptBlock)
    ensures
        blocks_view(final(blocks)@) == blocks_view(old(blocks)@).push(b@),
{
    blocks.push(b);
    assert(blocks_view(blocks@) =~= blocks_view(old(blocks)@).push(b@));
}

fn two_spans(a: ReceiptSpan, b: ReceiptSpan) -> (r: Vec<ReceiptSpan>)
    ensures
        spans_view(r@) == seq![a@, b@],
{
    let mut v: Vec<ReceiptSpan> = Vec::new();
    v.push(a);
    v.push(b);
    assert(spans_view(v@) =~= seq![a@, b@]);
    v
}

/// Formats a website message into receipt blocks for printing.
pub fn format_message(msg: &ReceiptMessage) -> (r: Vec<ReceiptBlock>)
    ensures
        blocks_view(r@) == message_blocks(*msg),
{
    let mut blocks: Vec<ReceiptBlock> = Vec::new();
    push_block(&mut blocks, ReceiptBlock::Divider);
    let mut heading: Vec<ReceiptSpan> = Vec::new();
    heading.push(ReceiptSpan::heading("MESSAGE"));
    assert(spans_view(heading@) =~= seq![span_of("MESSAGE"@, heading_format())]);
    push_block(&mut blocks, ReceiptBlock::Heading { spans: heading });
    push_block(&mut blocks, ReceiptBlock::Divider);
    push_block(&mut blocks, ReceiptBlock::BlankLine);
    let sender: &str = match &msg.sender_name {
        Some(n) => n.as_str(),
        None => match &msg.sender_ip {
            Some(ip) => ip.as_str(),
            None => "anonymous",
        },
    };
    let from = two_spans(ReceiptSpan::bold("From: "), ReceiptSpan::plain(sender));
    push_block(&mut blocks, ReceiptBlock::Line { spans: from, alignment: Alignment::Left });
    let time_display = format_time(msg.created_at.as_str());
    let time = two_spans(ReceiptSpan::bold("Time: "), ReceiptSpan::plain(time_display.as_str()));
    push_block(&mut blocks, ReceiptBlock::Line { spans: time, alignment: Alignment::Left });
    push_block(&mut blocks, ReceiptBlock::BlankLine);
    push_block(&mut blocks, ReceiptBlock::Divider);
    push_block(&mut blocks, ReceiptBlock::BlankLine);
    let ghost head = blocks_view(blocks@);
    let content = chars_of(msg.content.as_str());
    let lines = lines_chars(&content);
    let ghost ls = lines@.map_values(|x: Vec<char>| x@);
    let mut i: usize = 0;
    while i < lines.len()
        invariant
            i <= lines@.len(),
            ls == lines@.map_values(|x: Vec<char>| x@),
            blocks_view(blocks@) == head + ls.subrange(0, i as int).map_values(
                |l: Seq<char>| content_block(l),
            ),
        decreases lines.len() - i,
    {
        let line = &lines[i];
        let t = trimmed(line);
        assert(ls[i as int] == line@);
        if t.len() == 0 {
            push_block(&mut blocks, ReceiptBlock::BlankLine);
        } else {
            let mut sp: Vec<ReceiptSpan> = Vec::new();
            sp.push(
                ReceiptSpan {
                    text: string_from(line.as_slice(), 0, line.len()),
                    format: SpanFormat { bold: false, underline: false, double_size: false },
                },
            );
            assert(line@.subrange(0, line@.len() as int) =~= line@);
            assert(spans_view(sp@) =~= seq![span_of(line@, plain_format())]);
            push_block(&mut blocks, ReceiptBlock::Line { spans: sp, alignment: Alignment::Left });
        }
        i = i + 1;
        assert(blocks_view(blocks@) =~= head + ls.subrange(0, i as int).map_values(
            |l: Seq<char>| content_block(l),
        ));
    }
    assert(ls.subrange(0, ls.len() as int) =~= ls);
    push_block(&mut blocks, ReceiptBlock::BlankLine);
    push_block(&mut blocks, ReceiptBlock::Divider);
    assert(blocks_view(blocks@) =~= message_blocks(*msg));
    blocks
}

/// "2025-02-19T14:30:00Z" becomes "2025-02-19 14:30".
pub fn format_time(iso: &str) -> (r: String)
    ensures
        r@ == time_display(iso@),
{
    let s = chars_of(iso);
    let end: usize = if s.len() >= 16 {
        16
    } else {
        s.len()
    };
    let mut r = String::new();
    let mut i: usize = 0;
    while i < end
        invariant
            end <= s@.len(),
            end == if s@.len() >= 16 {
                16
            } else {
                s@.len()
            },
            i <= end,
            r@ == s@.subrange(0, i as int).map_values(|c: char| if c == 'T' { ' ' } else { c }),
        decreases end - i,
    {
        let c = s[i];
        r.push(if c == 'T' { ' ' } else { c });
        i = i + 1;
        assert(r@ =~= s@.subrange(0, i as int).map_values(|c: char| if c == 'T' { ' ' } else { c }));
    }
    assert(s@.len() < 16 ==> s@.subrange(0, end as int) =~= s@);
    r
}

/// The clock time of an ISO timestamp ("14:30"), or the whole text if it is shorter.
pub open spec fn time_short(iso: Seq<char>) -> Seq<char> {
    if iso.len() >= 16 {
        iso.subrange(11, 16)
    } else {
        iso
    }
}

pub fn format_time_short(iso: &str) -> (r: String)
    ensures
        r@ == time_short(iso@),
{
    let s = chars_of(iso);
    if s.len() >= 16 {
        string_from(s.as_slice(), 11, 16)
    } else {
        let n = s.len();
        assert(s@.subrange(0, n as int) =~= s@);
        string_from(s.as_slice(), 0, n)
    }
}

/// The preview of a message: up to 50 characters as they are, else the first
/// 47 followed by "...".
pub open spec fn preview_of(content: Seq<char>) -> Seq<char> {
    if content.len() > 50 {
        content.subrange(0, 47) + "..."@
    } else {
        content
    }
}

pub fn message_preview(content: &str) -> (r: String)
    ensures
        r@ == preview_of(content@),
{
    let s = chars_of(content);
    let n = s.len();
    if n > 50 {
        let mut r = string_from(s.as_slice(), 0, 47);
        r.push('.');
        r.push('.');
        r.push('.');
        proof {
            reveal_strlit("...");
        }
        assert(r@ =~= preview_of(content@));
        r
    } else {
        assert(s@.subrange(0, n as int) =~= s@);
        string_from(s.as_slice(), 0, n)
    }
}

} // verus!
