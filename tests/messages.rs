use receipt_printer::app_state::{
    finish_job, receive_messages, record_received, AppError, MessagePrintStatus, ReceivedMessage,
};
use receipt_printer::scheduler::{Dispatch, PrintScheduler};
use receipt_printer::markdown::ReceiptBlock;
use receipt_printer::messages::{format_message, format_time, format_time_short, message_preview, ReceiptMessage};

fn sample_message() -> ReceiptMessage {
    ReceiptMessage {
        id: 1,
        content: "Hello from the web!\nThis is line two.".to_string(),
        sender_name: Some("Bob".to_string()),
        sender_ip: Some("192.168.1.5".to_string()),
        image_url: None,
        status: "pending".to_string(),
        created_at: "2025-02-19T14:30:00Z".to_string(),
    }
}

#[test]
fn format_produces_correct_structure() {
    let msg = sample_message();
    let blocks = format_message(&msg);

    assert!(matches!(blocks[0], ReceiptBlock::Divider));
    assert!(matches!(blocks[1], ReceiptBlock::Heading { .. }));
    assert!(matches!(blocks[2], ReceiptBlock::Divider));
    assert!(matches!(blocks[3], ReceiptBlock::BlankLine));

    if let ReceiptBlock::Line { spans, .. } = &blocks[4] {
        assert_eq!(spans[0].text, "From: ");
        assert!(spans[0].format.bold);
        assert_eq!(spans[1].text, "Bob");
    } else {
        panic!("Expected Line block for sender");
    }

    if let ReceiptBlock::Line { spans, .. } = &blocks[5] {
        assert_eq!(spans[0].text, "Time: ");
        assert_eq!(spans[1].text, "2025-02-19 14:30");
    } else {
        panic!("Expected Line block for time");
    }

    assert!(matches!(blocks.last(), Some(ReceiptBlock::Divider)));
}

#[test]
fn format_multiline_content() {
    let msg = sample_message();
    let blocks = format_message(&msg);

    let content_blocks: Vec<_> = blocks
        .iter()
        .filter(|b| {
            if let ReceiptBlock::Line { spans, .. } = b {
                spans.iter().any(|s| s.text.contains("Hello"))
                    || spans.iter().any(|s| s.text.contains("line two"))
            } else {
                false
            }
        })
        .collect();

    assert_eq!(content_blocks.len(), 2);
}

#[test]
fn format_anonymous_sender() {
    let mut msg = sample_message();
    msg.sender_name = None;
    msg.sender_ip = None;
    let blocks = format_message(&msg);

    if let ReceiptBlock::Line { spans, .. } = &blocks[4] {
        assert_eq!(spans[1].text, "anonymous");
    } else {
        panic!("Expected Line block for sender");
    }
}

#[test]
fn format_time_parsing() {
    assert_eq!(format_time("2025-02-19T14:30:00Z"), "2025-02-19 14:30");
    assert_eq!(format_time("2025-02-19T14:30:00.000Z"), "2025-02-19 14:30");
    assert_eq!(format_time("short"), "short");
}

#[test]
fn sender_falls_back_to_address_and_blank_lines_stay() {
    let mut msg = sample_message();
    msg.sender_name = None;
    msg.content = "one\n  \ntwo".to_string();
    let blocks = format_message(&msg);
    if let ReceiptBlock::Line { spans, .. } = &blocks[4] {
        assert_eq!(spans[1].text, "192.168.1.5");
    } else {
        panic!("Expected Line block for sender");
    }
    assert_eq!(blocks.len(), 9 + 3 + 2);
    assert!(matches!(blocks[10], ReceiptBlock::BlankLine));
}

#[test]
fn short_time_and_preview() {
    assert_eq!(format_time_short("2025-02-19T14:30:00Z"), "14:30");
    assert_eq!(format_time_short("now"), "now");
    assert_eq!(message_preview("short"), "short");
    let long = "x".repeat(60);
    assert_eq!(message_preview(&long), format!("{}...", "x".repeat(47)));
    assert_eq!(message_preview(&"y".repeat(50)), "y".repeat(50));
}

#[test]
fn received_messages_skip_duplicates_and_keep_fifty() {
    let mut list: Vec<ReceivedMessage> = Vec::new();
    let msg = sample_message();
    assert!(record_received(&mut list, &msg));
    assert!(!record_received(&mut list, &msg));
    assert_eq!(list.len(), 1);
    assert_eq!(list[0].sender, "Bob");
    assert_eq!(list[0].time, "14:30");
    assert_eq!(list[0].status, MessagePrintStatus::Printing);
    for id in 2..=60 {
        let mut m = sample_message();
        m.id = id;
        assert!(record_received(&mut list, &m));
    }
    assert_eq!(list.len(), 50);
    assert_eq!(list[0].id, 11);
    assert_eq!(list[49].id, 60);
}

#[test]
fn error_messages_read_well() {
    assert_eq!(AppError::NoPrinterFound.message(), "No Epson printer found on USB");
    assert_eq!(AppError::Usb("timeout".into()).message(), "USB error: timeout");
    assert_eq!(AppError::PaperOut.message(), "Paper out");
    assert_eq!(AppError::PermissionDenied("udev".into()).message(), "Permission denied: udev");
}

#[test]
fn new_messages_queue_one_job_each() {
    let mut list: Vec<ReceivedMessage> = Vec::new();
    let mut sched = PrintScheduler::new();
    let first = sample_message();
    let mut second = sample_message();
    second.id = 2;
    second.image_url = Some("/img/2".to_string());
    let msgs = vec![first.clone(), second, first];
    let started = receive_messages(&mut list, &mut sched, &msgs, true);
    match started {
        Dispatch::Start(job) => {
            assert_eq!(job.id, 1);
            assert!(job.image.is_none());
            assert_eq!(job.blocks.len(), format_message(&sample_message()).len());
        }
        other => panic!("unexpected {other:?}"),
    }
    assert_eq!(list.len(), 2);
    assert_eq!(sched.queue.len(), 1);
    assert_eq!(sched.queue[0].id, 2);
    assert!(sched.printing);

    let mut printed = 0u32;
    let next = finish_job(&mut list, &mut printed, &mut sched, 1, &Ok(()), true);
    assert!(matches!(next, Dispatch::Start(ref j) if j.id == 2));
    assert_eq!(list[0].status, MessagePrintStatus::Printed);
    assert_eq!(printed, 1);
    let none = finish_job(&mut list, &mut printed, &mut sched, 2, &Err("jam".to_string()), true);
    assert!(matches!(none, Dispatch::Idle));
    assert_eq!(list[1].status, MessagePrintStatus::Failed("jam".to_string()));
    assert_eq!(printed, 1);
    assert!(!sched.printing);
}

#[test]
fn image_messages_wait_and_repeats_add_nothing() {
    let mut list: Vec<ReceivedMessage> = Vec::new();
    let mut sched = PrintScheduler::new();
    let mut m = sample_message();
    m.image_url = Some("/img/1".to_string());
    assert!(matches!(receive_messages(&mut list, &mut sched, &vec![m.clone()], true), Dispatch::Idle));
    assert_eq!(sched.queue.len(), 1);
    assert!(matches!(receive_messages(&mut list, &mut sched, &vec![m], true), Dispatch::Idle));
    assert_eq!(sched.queue.len(), 1);
    assert_eq!(list.len(), 1);
}
