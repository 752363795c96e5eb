use receipt_printer::markdown::{parse_receipt_markdown, Alignment, ReceiptBlock, ReceiptSpan, SpanFormat};
use receipt_printer::word_wrap::{format_columns, line_char_count, wrap_document, wrap_spans, WrappedLine};

fn line_text(line: &WrappedLine) -> String {
    line.spans.iter().map(|s| s.text.as_str()).collect()
}

#[test]
fn short_line_no_wrap() {
    let spans = vec![ReceiptSpan::plain("Hello world")];
    let lines = wrap_spans(&spans, 42);
    assert_eq!(lines.len(), 1);
    assert_eq!(line_char_count(&lines[0].spans), 11);
}

#[test]
fn exact_fit_42_chars() {
    let text = "A".repeat(42);
    let spans = vec![ReceiptSpan::plain(&text)];
    let lines = wrap_spans(&spans, 42);
    assert_eq!(lines.len(), 1);
    assert_eq!(line_char_count(&lines[0].spans), 42);
}

#[test]
fn wrap_at_word_boundary() {
    let spans = vec![ReceiptSpan::plain(
        "The quick brown fox jumps over the lazy dog near the river",
    )];
    let lines = wrap_spans(&spans, 42);
    assert!(lines.len() >= 2);
    for line in &lines {
        assert!(line_char_count(&line.spans) <= 42);
    }
}

#[test]
fn never_split_words() {
    let long_word = "A".repeat(50);
    let spans = vec![ReceiptSpan::plain(&long_word)];
    let lines = wrap_spans(&spans, 42);
    assert_eq!(lines.len(), 1);
    assert_eq!(line_char_count(&lines[0].spans), 50);
}

#[test]
fn double_size_halves_width() {
    let spans = vec![ReceiptSpan {
        text: "This is a double size heading text".to_string(),
        format: SpanFormat {
            double_size: true,
            bold: true,
            ..Default::default()
        },
    }];
    let lines = wrap_spans(&spans, 21);
    assert!(lines.len() >= 2);
    for line in &lines {
        assert!(line_char_count(&line.spans) <= 21);
    }
}

#[test]
fn column_padding_fills_width() {
    let cells = vec![
        vec![ReceiptSpan::plain("Coffee")],
        vec![ReceiptSpan::plain("$4.50")],
    ];
    let line = format_columns(&cells, 42);
    assert_eq!(line_char_count(&line.spans), 42);
}

#[test]
fn column_bold_price() {
    let cells = vec![
        vec![ReceiptSpan::bold("Total")],
        vec![ReceiptSpan::bold("$10.25")],
    ];
    let line = format_columns(&cells, 42);
    assert_eq!(line_char_count(&line.spans), 42);
    assert!(line.spans[0].format.bold);
    assert!(line.spans.last().unwrap().format.bold);
}

#[test]
fn real_receipt_wrap() {
    let input = "\
# RIVERSIDE CAFE

Espresso | $3.00
Croissant with butter | $4.50

---

**Total** | **$8.25**";

    let blocks = parse_receipt_markdown(input);
    let lines = wrap_document(&blocks, 42);

    for line in &lines {
        let count = line_char_count(&line.spans);
        if count > 0 {
            assert!(count <= 42, "Line too long ({count}): {line:?}");
        }
    }
}

#[test]
fn never_splits_words_real_input() {
    let input =
        "whats up buttercup we are gonna attempt the word splitting situation now and see what happens";
    let blocks = parse_receipt_markdown(input);
    let lines = wrap_document(&blocks, 42);

    let all_output_text: Vec<String> = lines.iter().map(line_text).collect();

    for (i, line_text) in all_output_text.iter().enumerate() {
        assert!(
            line_text.len() <= 42,
            "Line {i} exceeds 42 chars ({} chars): {line_text:?}",
            line_text.len()
        );
    }

    for word in input.split_whitespace() {
        let found = all_output_text.iter().any(|line| line.contains(word));
        assert!(found, "Word {word:?} was split across lines");
    }
}

#[test]
fn composition_parse_then_wrap() {
    let input = "**Welcome** to our _store_\n\nLatte | $5.00\nScone | $3.50\n\n---\n\n**Total** | **$8.50**";
    let blocks = parse_receipt_markdown(input);
    let lines = wrap_document(&blocks, 42);

    assert!(lines.len() >= 7);
    assert!(lines[0].spans.iter().any(|s| s.format.bold));

    let divider_line = lines.iter().find(|l| {
        l.spans.len() == 1
            && l.spans[0].text.chars().all(|c| c == '-')
            && l.spans[0].text.len() == 42
    });
    assert!(divider_line.is_some());
}

#[test]
fn wrapped_lines_fit_or_hold_one_long_word() {
    let text = "alpha beta gamma delta epsilon zeta eta theta iota kappa lambda mu";
    let spans = vec![ReceiptSpan::plain(text), ReceiptSpan::plain("supercalifragilistic tail")];
    let lines = wrap_spans(&spans, 12);
    for line in &lines {
        let t = line_text(line);
        assert!(t.chars().count() <= 12 || !t.contains(' '), "{t:?}");
    }
    assert!(lines.iter().any(|l| line_text(l) == "supercalifragilistic"));
}

#[test]
fn wrapped_words_keep_their_order() {
    let spans = vec![
        ReceiptSpan::plain("  one two\tthree "),
        ReceiptSpan::bold("four five"),
        ReceiptSpan::plain("six"),
    ];
    let lines = wrap_spans(&spans, 9);
    let out: Vec<String> = lines
        .iter()
        .flat_map(|l| line_text(l).split_whitespace().map(String::from).collect::<Vec<_>>())
        .collect();
    assert_eq!(out, vec!["one", "two", "three", "four", "five", "six"]);
    assert_eq!(line_text(&lines[0]), "one two");
}

#[test]
fn adjacent_words_of_one_format_share_a_span() {
    let spans = vec![ReceiptSpan::plain("a"), ReceiptSpan::plain("b"), ReceiptSpan::bold("c")];
    let lines = wrap_spans(&spans, 42);
    assert_eq!(lines.len(), 1);
    assert_eq!(lines[0].spans.len(), 2);
    assert_eq!(lines[0].spans[0].text, "a b");
    assert_eq!(lines[0].spans[1].text, " c");
    assert!(lines[0].spans[1].format.bold);
}

#[test]
fn empty_spans_give_one_empty_line() {
    let lines = wrap_spans(&[ReceiptSpan::plain("   ")], 42);
    assert_eq!(lines.len(), 1);
    assert_eq!(lines[0].spans.len(), 1);
    assert_eq!(lines[0].spans[0].text, "");
    assert_eq!(lines[0].alignment, Alignment::Left);
}

#[test]
fn divider_is_exactly_width_dashes() {
    for w in [0u8, 1, 32, 42, 48] {
        let lines = wrap_document(&[ReceiptBlock::Divider], w);
        assert_eq!(lines.len(), 1);
        assert_eq!(line_text(&lines[0]), "-".repeat(w as usize));
    }
}

#[test]
fn columns_overflow_keeps_one_space() {
    let cells = vec![
        vec![ReceiptSpan::plain(&"L".repeat(30))],
        vec![ReceiptSpan::plain(&"R".repeat(20))],
    ];
    let line = format_columns(&cells, 42);
    assert_eq!(line_char_count(&line.spans), 51);
    let single = format_columns(&[vec![ReceiptSpan::plain("only")]], 42);
    assert_eq!(line_text(&single), "only");
    let exact = format_columns(
        &[vec![ReceiptSpan::plain(&"L".repeat(21))], vec![ReceiptSpan::plain(&"R".repeat(21))]],
        42,
    );
    assert_eq!(line_char_count(&exact.spans), 43);
}

#[test]
fn heading_wraps_at_half_width_centered() {
    let blocks = vec![ReceiptBlock::Heading {
        spans: vec![ReceiptSpan::heading("This is a double size heading text")],
    }];
    let lines = wrap_document(&blocks, 42);
    assert!(lines.len() >= 2);
    for line in &lines {
        assert_eq!(line.alignment, Alignment::Center);
        assert!(line_char_count(&line.spans) <= 21);
    }
}

#[test]
fn end_to_end_receipt_layout() {
    let input = "# RIVERSIDE CAFE\n\nEspresso | $3.00\n\n---\n\n**Total** | **$8.25**";
    let lines = wrap_document(&parse_receipt_markdown(input), 42);
    assert_eq!(lines.len(), 7);
    assert_eq!(lines[0].alignment, Alignment::Center);
    assert_eq!(line_text(&lines[0]), "RIVERSIDE CAFE");
    assert_eq!(line_text(&lines[1]), "");
    let espresso = line_text(&lines[2]);
    assert_eq!(espresso.len(), 42);
    assert!(espresso.starts_with("Espresso ") && espresso.ends_with(" $3.00"));
    assert_eq!(line_text(&lines[3]), "");
    assert_eq!(line_text(&lines[4]), "-".repeat(42));
    assert_eq!(line_text(&lines[5]), "");
    let total = line_text(&lines[6]);
    assert_eq!(total.len(), 42);
    assert!(total.starts_with("Total ") && total.ends_with(" $8.25"));
    assert!(lines[6].spans[0].format.bold);
    assert!(lines[6].spans.last().unwrap().format.bold);
}
