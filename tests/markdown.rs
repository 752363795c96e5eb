use receipt_printer::markdown::{parse_inline, parse_receipt_markdown, ReceiptBlock};

#[test]
fn parse_full_receipt() {
    let input = "# ACME COFFEE SHOP\n\nAmericano | $4.50\nOat Latte | $5.75\n\n---\n\n**Total** | **$10.25**";
    let blocks = parse_receipt_markdown(input);

    assert!(matches!(blocks[0], ReceiptBlock::Heading { .. }));
    assert!(matches!(blocks[1], ReceiptBlock::BlankLine));
    assert!(matches!(blocks[2], ReceiptBlock::Columns { .. }));
    assert!(matches!(blocks[3], ReceiptBlock::Columns { .. }));
    assert!(matches!(blocks[4], ReceiptBlock::BlankLine));
    assert!(matches!(blocks[5], ReceiptBlock::Divider));
    assert!(matches!(blocks[6], ReceiptBlock::BlankLine));
    assert!(matches!(blocks[7], ReceiptBlock::Columns { .. }));
}

#[test]
fn parse_bold_store_name() {
    let input = "**ACME STORE**";
    let blocks = parse_receipt_markdown(input);

    assert_eq!(blocks.len(), 1);
    if let ReceiptBlock::Line { spans, .. } = &blocks[0] {
        assert_eq!(spans.len(), 1);
        assert_eq!(spans[0].text, "ACME STORE");
        assert!(spans[0].format.bold);
        assert!(!spans[0].format.underline);
    } else {
        panic!("Expected Line block, got {blocks:?}");
    }
}

#[test]
fn parse_underline_thank_you() {
    let input = "_Thank you for your purchase!_";
    let blocks = parse_receipt_markdown(input);

    assert_eq!(blocks.len(), 1);
    if let ReceiptBlock::Line { spans, .. } = &blocks[0] {
        assert_eq!(spans.len(), 1);
        assert_eq!(spans[0].text, "Thank you for your purchase!");
        assert!(spans[0].format.underline);
        assert!(!spans[0].format.bold);
    } else {
        panic!("Expected Line block, got {blocks:?}");
    }
}

#[test]
fn parse_mixed_inline_formatting() {
    let input = "**bold** and _underline_";
    let blocks = parse_receipt_markdown(input);

    assert_eq!(blocks.len(), 1);
    if let ReceiptBlock::Line { spans, .. } = &blocks[0] {
        assert_eq!(spans.len(), 3);
        assert_eq!(spans[0].text, "bold");
        assert!(spans[0].format.bold);
        assert_eq!(spans[1].text, " and ");
        assert!(!spans[1].format.bold);
        assert!(!spans[1].format.underline);
        assert_eq!(spans[2].text, "underline");
        assert!(spans[2].format.underline);
    } else {
        panic!("Expected Line block, got {blocks:?}");
    }
}

#[test]
fn parse_heading_double_size_centered() {
    let input = "# ACME STORE";
    let blocks = parse_receipt_markdown(input);

    assert_eq!(blocks.len(), 1);
    if let ReceiptBlock::Heading { spans } = &blocks[0] {
        assert_eq!(spans.len(), 1);
        assert_eq!(spans[0].text, "ACME STORE");
        assert!(spans[0].format.bold);
        assert!(spans[0].format.double_size);
    } else {
        panic!("Expected Heading block, got {blocks:?}");
    }
}

#[test]
fn parse_divider() {
    let input = "---";
    let blocks = parse_receipt_markdown(input);

    assert_eq!(blocks.len(), 1);
    assert!(matches!(blocks[0], ReceiptBlock::Divider));
}

#[test]
fn parse_pipe_columns_coffee_receipt() {
    let input = "Coffee | $4.50";
    let blocks = parse_receipt_markdown(input);

    assert_eq!(blocks.len(), 1);
    if let ReceiptBlock::Columns { cells } = &blocks[0] {
        assert_eq!(cells.len(), 2);
        assert_eq!(cells[0][0].text, "Coffee");
        assert_eq!(cells[1][0].text, "$4.50");
    } else {
        panic!("Expected Columns block, got {blocks:?}");
    }
}

#[test]
fn parse_columns_with_bold_total() {
    let input = "**Subtotal** | $25.00";
    let blocks = parse_receipt_markdown(input);

    assert_eq!(blocks.len(), 1);
    if let ReceiptBlock::Columns { cells } = &blocks[0] {
        assert_eq!(cells.len(), 2);
        assert_eq!(cells[0].len(), 1);
        assert_eq!(cells[0][0].text, "Subtotal");
        assert!(cells[0][0].format.bold);
        assert_eq!(cells[1][0].text, "$25.00");
        assert!(!cells[1][0].format.bold);
    } else {
        panic!("Expected Columns block, got {blocks:?}");
    }
}

#[test]
fn parse_blank_lines_preserved() {
    let input = "Hello\n\nWorld";
    let blocks = parse_receipt_markdown(input);

    assert_eq!(blocks.len(), 3);
    assert!(matches!(blocks[0], ReceiptBlock::Line { .. }));
    assert!(matches!(blocks[1], ReceiptBlock::BlankLine));
    assert!(matches!(blocks[2], ReceiptBlock::Line { .. }));
}

#[test]
fn parse_full_receipt_block_sequence() {
    let input = "\
# RIVERSIDE CAFE

Espresso | $3.00
Croissant | $4.50
_Almond_ Milk | $0.75

---

**Total** | **$8.25**

_Thank you!_";

    let blocks = parse_receipt_markdown(input);

    assert!(matches!(blocks[0], ReceiptBlock::Heading { .. }));
    assert!(matches!(blocks[1], ReceiptBlock::BlankLine));
    assert!(matches!(blocks[2], ReceiptBlock::Columns { .. }));
    assert!(matches!(blocks[3], ReceiptBlock::Columns { .. }));
    assert!(matches!(blocks[4], ReceiptBlock::Columns { .. }));
    assert!(matches!(blocks[5], ReceiptBlock::BlankLine));
    assert!(matches!(blocks[6], ReceiptBlock::Divider));
    assert!(matches!(blocks[7], ReceiptBlock::BlankLine));
    assert!(matches!(blocks[8], ReceiptBlock::Columns { .. }));
    assert!(matches!(blocks[9], ReceiptBlock::BlankLine));
    assert!(matches!(blocks[10], ReceiptBlock::Line { .. }));
}

#[test]
fn inline_plain_text() {
    let spans = parse_inline("Just plain text");
    assert_eq!(spans.len(), 1);
    assert_eq!(spans[0].text, "Just plain text");
    assert!(!spans[0].format.bold);
}

#[test]
fn inline_bold() {
    let spans = parse_inline("**TOTAL**");
    assert_eq!(spans.len(), 1);
    assert_eq!(spans[0].text, "TOTAL");
    assert!(spans[0].format.bold);
}

#[test]
fn inline_underline() {
    let spans = parse_inline("_thanks_");
    assert_eq!(spans.len(), 1);
    assert_eq!(spans[0].text, "thanks");
    assert!(spans[0].format.underline);
}

#[test]
fn inline_mixed() {
    let spans = parse_inline("**bold** plain _underline_");
    assert_eq!(spans.len(), 3);
    assert_eq!(spans[0].text, "bold");
    assert!(spans[0].format.bold);
    assert_eq!(spans[1].text, " plain ");
    assert!(!spans[1].format.bold);
    assert_eq!(spans[2].text, "underline");
    assert!(spans[2].format.underline);
}

#[test]
fn inline_double_underscore_is_bold() {
    let spans = parse_inline("__big__ deal");
    assert_eq!(spans.len(), 2);
    assert_eq!(spans[0].text, "big");
    assert!(spans[0].format.bold);
    assert_eq!(spans[1].text, " deal");
}

#[test]
fn inline_star_is_underline() {
    let spans = parse_inline("*soft*");
    assert_eq!(spans.len(), 1);
    assert_eq!(spans[0].text, "soft");
    assert!(spans[0].format.underline);
    assert!(!spans[0].format.bold);
}

#[test]
fn inline_unmatched_marker_degrades_to_plain() {
    let spans = parse_inline("price **10");
    assert_eq!(spans.len(), 2);
    assert_eq!(spans[0].text, "price ");
    assert_eq!(spans[1].text, "**10");
    assert!(!spans[1].format.bold);
    let trailing = parse_inline("a*");
    assert_eq!(trailing.len(), 2);
    assert_eq!(trailing[1].text, "*");
}

#[test]
fn inline_empty_markers_keep_text() {
    let spans = parse_inline("****");
    assert_eq!(spans.len(), 1);
    assert_eq!(spans[0].text, "****");
    assert!(parse_inline("").is_empty());
}

#[test]
fn table_rows_and_code_fences_are_not_columns() {
    let blocks = parse_receipt_markdown("| a | b |");
    assert!(!matches!(blocks[0], ReceiptBlock::Columns { .. }));
    let cells = parse_receipt_markdown("a | b | c");
    if let ReceiptBlock::Columns { cells } = &cells[0] {
        assert_eq!(cells.len(), 3);
        assert_eq!(cells[2][0].text, "c");
    } else {
        panic!("Expected Columns");
    }
}

#[test]
fn soft_break_joins_with_space_in_one_line() {
    let blocks = parse_receipt_markdown("first\nsecond");
    assert_eq!(blocks.len(), 1);
    if let ReceiptBlock::Line { spans, .. } = &blocks[0] {
        let text: String = spans.iter().map(|s| s.text.as_str()).collect();
        assert_eq!(text, "first second");
    } else {
        panic!("Expected Line");
    }
}

#[test]
fn crlf_lines_and_empty_input() {
    let blocks = parse_receipt_markdown("Hello\r\n\r\nWorld\r\n");
    assert_eq!(blocks.len(), 3);
    assert!(matches!(blocks[1], ReceiptBlock::BlankLine));
    assert!(parse_receipt_markdown("").is_empty());
}

#[test]
fn code_block_text_holds_no_newline() {
    let blocks = parse_receipt_markdown("```\nline one\nline two\n```");
    let mut texts = Vec::new();
    for b in &blocks {
        if let ReceiptBlock::Line { spans, .. } = b {
            for s in spans {
                assert!(!s.text.contains('\n'), "{s:?}");
                texts.push(s.text.clone());
            }
        }
    }
    assert_eq!(texts, vec!["line one".to_string(), "line two".to_string()]);
}
