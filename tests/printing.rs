use receipt_printer::connection::{ConnAction, ConnEvent, ConnState, ConnectionManager};
use receipt_printer::log_filter::{filter_by_source, filter_elixir_errors};
use receipt_printer::markdown::ReceiptBlock;
use receipt_printer::printer_info::{discovered_printer, find_known_model, is_epson_device, max_chars_for, PrinterStatus};
use receipt_printer::scheduler::{Dispatch, PrintJob, PrintScheduler};

fn job(id: i64) -> PrintJob {
    PrintJob { id, blocks: vec![ReceiptBlock::BlankLine], image: None }
}

#[test]
fn same_product_opens_once() {
    let mut m = ConnectionManager::new();
    assert_eq!(m.handle(ConnEvent::Acquire(0x0e28)), ConnAction::OpenDevice(0x0e28));
    assert_eq!(m.handle(ConnEvent::Opened(0x0e28)), ConnAction::RunOperation);
    assert_eq!(m.handle(ConnEvent::OperationSucceeded), ConnAction::Idle);
    assert_eq!(m.handle(ConnEvent::Acquire(0x0e28)), ConnAction::RunOperation);
    assert_eq!(m.state, ConnState::Open(0x0e28));
}

#[test]
fn other_product_closes_before_opening() {
    let mut m = ConnectionManager::new();
    m.handle(ConnEvent::Acquire(1));
    m.handle(ConnEvent::Opened(1));
    assert_eq!(m.handle(ConnEvent::Acquire(2)), ConnAction::CloseThenOpen(2));
    assert_eq!(m.state, ConnState::Closed);
}

#[test]
fn failure_drops_handle_and_next_request_reopens() {
    let mut m = ConnectionManager::new();
    m.handle(ConnEvent::Acquire(7));
    m.handle(ConnEvent::Opened(7));
    assert_eq!(m.handle(ConnEvent::OperationFailed), ConnAction::CloseDevice);
    assert_eq!(m.state, ConnState::Closed);
    assert_eq!(m.handle(ConnEvent::Acquire(7)), ConnAction::OpenDevice(7));
    assert_eq!(m.handle(ConnEvent::OpenFailed), ConnAction::ReportFailure);
    assert_eq!(m.handle(ConnEvent::Close), ConnAction::Idle);
}

#[test]
fn jobs_submitted_while_busy_run_in_order() {
    let mut s = PrintScheduler::new();
    s.submit(job(1));
    let first = s.try_dispatch(true);
    assert!(matches!(first, Dispatch::Start(ref j) if j.id == 1));
    s.submit(job(2));
    s.submit(job(3));
    s.submit(job(4));
    assert!(matches!(s.try_dispatch(true), Dispatch::Idle));
    let mut order = Vec::new();
    for _ in 0..3 {
        s.finish();
        match s.try_dispatch(true) {
            Dispatch::Start(j) => order.push(j.id),
            other => panic!("unexpected {other:?}"),
        }
        assert!(matches!(s.try_dispatch(true), Dispatch::Idle));
    }
    assert_eq!(order, vec![2, 3, 4]);
    s.finish();
    assert!(matches!(s.try_dispatch(true), Dispatch::Idle));
}

#[test]
fn no_printer_fails_job_without_blocking() {
    let mut s = PrintScheduler::new();
    s.submit(job(5));
    s.submit(job(6));
    assert!(matches!(s.try_dispatch(false), Dispatch::NoPrinter(5)));
    assert!(!s.printing);
    assert!(matches!(s.try_dispatch(true), Dispatch::Start(ref j) if j.id == 6));
}

#[test]
fn late_image_attaches_only_while_queued() {
    let mut s = PrintScheduler::new();
    s.submit(job(8));
    s.submit(job(9));
    assert!(s.attach_image(9, vec![1, 2, 3]));
    assert_eq!(s.queue[1].image, Some(vec![1, 2, 3]));
    assert!(matches!(s.try_dispatch(true), Dispatch::Start(_)));
    assert!(!s.attach_image(8, vec![4]));
}

#[test]
fn known_models_and_width() {
    let m = find_known_model(0x04b8, 0x0e28).unwrap();
    assert_eq!(m.name, "TM-T88VI");
    assert_eq!(m.max_chars_per_line, 48);
    assert_eq!(find_known_model(0x04b8, 0x0e36).unwrap().name, "TM-M50");
    assert!(find_known_model(0x1234, 0x0e28).is_none());
    assert!(find_known_model(0x04b8, 0x9999).is_none());
    assert_eq!(max_chars_for(0x04b8, 0x0e15), 48);
    assert_eq!(max_chars_for(0x04b8, 0x9999), 42);
    assert!(is_epson_device(0x04b8));
    assert!(!is_epson_device(0x04b9));
}

#[test]
fn status_bytes_and_summary() {
    let ready = PrinterStatus::from_status_bytes(0x00, 0x00, 0x00);
    assert_eq!(ready.summary(), "Ready");
    assert_eq!(PrinterStatus::from_status_bytes(0x08, 0, 0).summary(), "Offline");
    assert_eq!(PrinterStatus::from_status_bytes(0, 0x04, 0x60).summary(), "Paper Out");
    assert_eq!(PrinterStatus::from_status_bytes(0, 0x04, 0).summary(), "Cover Open");
    assert_eq!(PrinterStatus::from_status_bytes(0, 0x20, 0).summary(), "Error");
    assert_eq!(PrinterStatus::from_status_bytes(0, 0, 0x0c).summary(), "Paper Low");
    let d = PrinterStatus::default();
    assert!(!d.online && !d.paper_out);
}

#[test]
fn elixir_filter_keeps_error_blocks() {
    let log = "[info] started\n[error] boom\n  stack line\n[debug] noise\nplain\n[error] again";
    assert_eq!(filter_elixir_errors(log), "[error] boom\n  stack line\n[error] again");
    assert_eq!(filter_elixir_errors("[info] all good"), "");
    assert_eq!(filter_by_source(log, "mix"), "[error] boom\n  stack line\n[error] again");
    assert_eq!(filter_by_source(log, "shell"), log);
}

#[test]
fn discovered_printers_are_named() {
    let known = discovered_printer(0x04b8, 0x0e15, Some("Receipt".into()), Some("J2C".into())).unwrap();
    assert_eq!(known.model_name, "TM-T88VI");
    assert_eq!(known.serial.as_deref(), Some("J2C"));
    let reported = discovered_printer(0x04b8, 0x1234, Some("TM-T20".into()), None).unwrap();
    assert_eq!(reported.model_name, "TM-T20");
    let unnamed = discovered_printer(0x04b8, 0x0a2f, None, None).unwrap();
    assert_eq!(unnamed.model_name, "Epson 0a2f");
    assert!(discovered_printer(0x1111, 0x0e15, None, None).is_none());
}
