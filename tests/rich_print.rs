use receipt_printer::markdown::{parse_receipt_markdown, Alignment, ReceiptSpan, SpanFormat};
use receipt_printer::rich_print::{generate_commands, generate_commands_from_lines, PrintCommand};
use receipt_printer::word_wrap::WrappedLine;

#[test]
fn bold_span_generates_correct_commands() {
    let lines = vec![WrappedLine {
        spans: vec![ReceiptSpan::bold("TOTAL")],
        alignment: Alignment::Left,
    }];
    let cmds = generate_commands_from_lines(&lines);

    assert_eq!(cmds[0], PrintCommand::SetBold(true));
    assert_eq!(cmds[1], PrintCommand::Write("TOTAL".into()));
    assert_eq!(cmds[2], PrintCommand::SetBold(false));
    assert_eq!(cmds[3], PrintCommand::Feed);
}

#[test]
fn no_redundant_format_changes() {
    let lines = vec![WrappedLine {
        spans: vec![ReceiptSpan::bold("ACME"), ReceiptSpan::bold(" STORE")],
        alignment: Alignment::Left,
    }];
    let cmds = generate_commands_from_lines(&lines);

    let bold_count = cmds
        .iter()
        .filter(|c| matches!(c, PrintCommand::SetBold(true)))
        .count();
    assert_eq!(bold_count, 1, "Bold should only be set once");
}

#[test]
fn alignment_changes_emitted() {
    let lines = vec![
        WrappedLine {
            spans: vec![ReceiptSpan::plain("left")],
            alignment: Alignment::Left,
        },
        WrappedLine {
            spans: vec![ReceiptSpan::plain("center")],
            alignment: Alignment::Center,
        },
    ];
    let cmds = generate_commands_from_lines(&lines);

    assert!(cmds.contains(&PrintCommand::SetAlignment(Alignment::Center)));
    assert_eq!(cmds[0], PrintCommand::Write("left".into()));
}

#[test]
fn divider_generates_dashes() {
    let blocks = parse_receipt_markdown("---");
    let cmds = generate_commands(&blocks, 42);

    let has_divider = cmds.iter().any(|c| match c {
        PrintCommand::Write(s) => s.len() == 42 && s.chars().all(|c| c == '-'),
        _ => false,
    });
    assert!(has_divider, "Should have 42-dash divider: {cmds:?}");
}

#[test]
fn mixed_format_line() {
    let lines = vec![WrappedLine {
        spans: vec![
            ReceiptSpan::bold("Total"),
            ReceiptSpan::plain(" "),
            ReceiptSpan {
                text: "$10.25".into(),
                format: SpanFormat {
                    bold: true,
                    underline: true,
                    ..Default::default()
                },
            },
        ],
        alignment: Alignment::Left,
    }];
    let cmds = generate_commands_from_lines(&lines);

    assert!(cmds.contains(&PrintCommand::SetUnderline(true)));
    assert!(cmds.contains(&PrintCommand::Write("$10.25".into())));
}

#[test]
fn full_receipt_pipeline() {
    let input = "\
# RIVERSIDE CAFE

Espresso | $3.00
Croissant | $4.50

---

**Total** | **$8.25**";

    let blocks = parse_receipt_markdown(input);
    let cmds = generate_commands(&blocks, 42);

    assert!(cmds.contains(&PrintCommand::SetDoubleSize(true)));
    assert!(cmds.contains(&PrintCommand::SetAlignment(Alignment::Center)));
    assert!(cmds.contains(&PrintCommand::Write("RIVERSIDE CAFE".into())));

    let feed_count = cmds
        .iter()
        .filter(|c| matches!(c, PrintCommand::Feed))
        .count();
    assert!(
        feed_count >= 7,
        "Should have feeds for each line: {feed_count}"
    );

    let bold_writes: Vec<_> = cmds
        .windows(2)
        .filter_map(|w| {
            if matches!(w[0], PrintCommand::SetBold(true)) {
                if let PrintCommand::Write(ref s) = w[1] {
                    return Some(s.clone());
                }
            }
            None
        })
        .collect();
    assert!(
        bold_writes.iter().any(|s| s.contains("Total")),
        "Total should be bold: {bold_writes:?}"
    );
}

#[test]
fn alignment_reset_at_end() {
    let lines = vec![WrappedLine {
        spans: vec![ReceiptSpan::plain("centered text")],
        alignment: Alignment::Center,
    }];
    let cmds = generate_commands_from_lines(&lines);

    assert_eq!(
        cmds.last().unwrap(),
        &PrintCommand::SetAlignment(Alignment::Left)
    );
}

#[test]
fn mixed_format_exact_stream() {
    let lines = vec![WrappedLine {
        spans: vec![
            ReceiptSpan::bold("Total"),
            ReceiptSpan::plain(" "),
            ReceiptSpan {
                text: "$10.25".into(),
                format: SpanFormat { bold: true, underline: true, double_size: false },
            },
        ],
        alignment: Alignment::Left,
    }];
    let cmds = generate_commands_from_lines(&lines);
    assert_eq!(
        cmds,
        vec![
            PrintCommand::SetBold(true),
            PrintCommand::Write("Total".into()),
            PrintCommand::SetBold(false),
            PrintCommand::Write(" ".into()),
            PrintCommand::SetBold(true),
            PrintCommand::SetUnderline(true),
            PrintCommand::Write("$10.25".into()),
            PrintCommand::SetBold(false),
            PrintCommand::SetUnderline(false),
            PrintCommand::Feed,
        ]
    );
}

#[test]
fn center_after_left_switches_before_first_write() {
    let lines = vec![
        WrappedLine { spans: vec![ReceiptSpan::plain("left")], alignment: Alignment::Left },
        WrappedLine { spans: vec![ReceiptSpan::heading("MID")], alignment: Alignment::Center },
    ];
    let cmds = generate_commands_from_lines(&lines);
    assert_eq!(
        cmds,
        vec![
            PrintCommand::Write("left".into()),
            PrintCommand::Feed,
            PrintCommand::SetAlignment(Alignment::Center),
            PrintCommand::SetBold(true),
            PrintCommand::SetDoubleSize(true),
            PrintCommand::Write("MID".into()),
            PrintCommand::SetBold(false),
            PrintCommand::SetDoubleSize(false),
            PrintCommand::Feed,
            PrintCommand::SetAlignment(Alignment::Left),
        ]
    );
}

#[test]
fn empty_span_writes_nothing_and_empty_input_is_empty() {
    let lines = vec![WrappedLine { spans: vec![ReceiptSpan::plain("")], alignment: Alignment::Left }];
    assert_eq!(generate_commands_from_lines(&lines), vec![PrintCommand::Feed]);
    assert!(generate_commands_from_lines(&[]).is_empty());
}
